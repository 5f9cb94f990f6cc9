//! Structural comparison of two JavaScript programs: their top-level
//! declarations, each with a signature, a set of structural hashes of its
//! subtrees, a MinHash sketch of that set and a fingerprint.
use vstd::prelude::*;
use vstd::relations::{sorted_by, total_ordering};
use vstd::multiset::Multiset;
use std::hash::DefaultHasher;
use std::hash::{Hash, Hasher};
use vstd::std_specs::hash::DefaultHasherAdditionalSpecFns;
use crate::syntax::SyntaxTree;
use crate::fingerprint::{FunctionFingerprint, FingerprintExtractor, same_optional_fingerprint, duplicate_optional, fingerprint_matches, StringDiff, gather, gather_children, distinct};
use crate::text::{contains_chars, starts_after_ws, ends_before_ws, starts_after_ws_exec, ends_before_ws_exec, split_on, split_chars, without_prefix, without_suffix, strip_prefix_chars, strip_suffix_chars, push_str, push_char, push_range, chars_of, replace_all, replace_chars, contains_seq, str_contains, count_char, count_char_in, lines_of, split_lines, utf8_width, char_utf8_width, push_decimal, string_of, string_of_chars, byte_len, utf8_len, decimal, occurs_at, str_eq, str_starts_with};
use crate::mapping::{keys_unique, pair_lookup, get_pair, insert_pair, positions_bounded};

verus! {

/// The writes that `<str as Hash>::hash` makes to a hasher for `s`.
pub uninterp spec fn str_writes(s: Seq<char>) -> Seq<Seq<u8>>;

/// The `n` low bytes of `v`, least significant first.
pub open spec fn le_bytes(v: nat, n: nat) -> Seq<u8>
    decreases n,
{
    if n == 0 {
        seq![]
    } else {
        seq![(v % 256) as u8] + le_bytes(v / 256, (n - 1) as nat)
    }
}

/// The write that hashes the word `v`: its eight bytes in little-endian
/// order, the same on every machine. `<u64 as Hash>` would write the bytes
/// in the machine's own order (and `<usize as Hash>` as many bytes as the
/// machine's word has), so on a little-endian 64-bit machine the hashes are
/// those that hashing the integers gives, and on others they differ from it.
pub open spec fn u64_writes(v: nat) -> Seq<Seq<u8>> {
    seq![le_bytes(v, 8)]
}

/// `<str as Hash>::hash` into a `DefaultHasher`: appends the writes named
/// `str_writes(s)`, which depend on `s` alone; their bytes are not spelled out.
#[verifier::external_body]
fn hash_str(h: &mut DefaultHasher, s: &str)
    ensures
        final(h)@ == old(h)@ + str_writes(s@),
{
    s.hash(h)
}

/// Writes the eight little-endian bytes of `v` to `h`: on a little-endian
/// 64-bit machine the same write as `v.hash(h)`, and the same on every
/// machine, where `v.hash(h)` would follow the machine's byte order.
fn hash_word(h: &mut DefaultHasher, v: u64)
    ensures
        final(h)@ == old(h)@ + u64_writes(v as nat),
{
    let mut bytes: Vec<u8> = Vec::new();
    let mut x: u64 = v;
    let mut k: usize = 0;
    while k < 8
        invariant
            k <= 8,
            bytes@ + le_bytes(x as nat, (8 - k) as nat) == le_bytes(v as nat, 8),
        decreases 8 - k,
    {
        let ghost before = bytes@;
        let b: u8 = (x % 256) as u8;
        bytes.push(b);
        proof {
            assert(le_bytes(x as nat, (8 - k) as nat) == seq![b] + le_bytes((x / 256) as nat, (8 - k - 1) as nat));
            assert(bytes@ + le_bytes((x / 256) as nat, (8 - k - 1) as nat) =~= before + le_bytes(x as nat, (8 - k) as nat));
        }
        x = x / 256;
        k = k + 1;
    }
    assert(le_bytes(x as nat, 0) =~= Seq::<u8>::empty());
    assert(bytes@ =~= le_bytes(v as nat, 8));
    h.write(bytes.as_slice());
    assert(final(h)@ =~= old(h)@ + u64_writes(v as nat));
}

/// The hash of a sequence of writes.
pub open spec fn finish(w: Seq<Seq<u8>>) -> u64 {
    DefaultHasher::spec_finish(w)
}

pub open spec fn is_literal_kind(k: Seq<char>) -> bool {
    k == "string"@ || k == "number"@ || k == "true"@ || k == "false"@ || k == "null"@ || k == "undefined"@ || k
        == "regex"@ || k == "template_string"@
}

/// Kinds whose children are hashed in sorted order, so that their order does not matter.
pub open spec fn is_order_independent_kind(k: Seq<char>) -> bool {
    k == "object"@ || k == "object_pattern"@ || k == "named_imports"@ || k == "export_clause"@
}

/// Children that do not take part in a node's structural hash.
pub open spec fn is_skipped_child(k: Seq<char>) -> bool {
    k == "comment"@ || k == ";"@ || k == ","@ || k == "("@ || k == ")"@ || k == "{"@ || k == "}"@ || k == "["@ || k
        == "]"@
}

/// `s` with `x` inserted before the first element not below it.
pub open spec fn insert_sorted(s: Seq<u64>, x: u64) -> Seq<u64>
    decreases s.len(),
{
    if s.len() == 0 {
        seq![x]
    } else if x <= s[0] {
        seq![x] + s
    } else {
        seq![s[0]] + insert_sorted(s.drop_first(), x)
    }
}

/// `s` in ascending order.
pub open spec fn sort_u64(s: Seq<u64>) -> Seq<u64>
    decreases s.len(),
{
    if s.len() == 0 {
        seq![]
    } else {
        insert_sorted(sort_u64(s.drop_last()), s.last())
    }
}

/// The writes for hashing each of `hs` in turn.
pub open spec fn words_writes(hs: Seq<u64>) -> Seq<Seq<u8>>
    decreases hs.len(),
{
    if hs.len() == 0 {
        seq![]
    } else {
        words_writes(hs.drop_last()) + u64_writes(hs.last() as nat)
    }
}

/// The structural hash of node `n`: the hash of its kind, then of its text
/// for a literal, of a placeholder for an identifier, or else of its
/// children's structural hashes (sorted for an order-independent node),
/// leaving out comments and punctuation.
pub open spec fn struct_hash(t: SyntaxTree, n: int) -> u64
    decreases t.nodes@.len() - n, 2int, 0int,
{
    finish(hash_writes(t, n))
}

pub open spec fn hash_writes(t: SyntaxTree, n: int) -> Seq<Seq<u8>>
    decreases t.nodes@.len() - n, 1int, 0int,
{
    if !(0 <= n < t.nodes@.len()) {
        seq![]
    } else {
        let k = t.kind(n);
        str_writes(k) + if is_literal_kind(k) {
            str_writes(t.text(n))
        } else if k == "identifier"@ {
            str_writes("<ID>"@)
        } else {
            let hs = child_hashes(t, n, 0);
            words_writes(
                if is_order_independent_kind(k) {
                    sort_u64(hs)
                } else {
                    hs
                },
            )
        }
    }
}

/// The structural hashes of children `k..` of `n` that take part.
pub open spec fn child_hashes(t: SyntaxTree, n: int, k: int) -> Seq<u64>
    decreases t.nodes@.len() - n, 0int, t.nodes@[n].children@.len() - k,
{
    if !(0 <= n < t.nodes@.len()) || k < 0 || k >= t.nodes@[n].children@.len() {
        seq![]
    } else {
        let c = t.nodes@[n].children@[k] as int;
        (if n < c < t.nodes@.len() && !is_skipped_child(t.kind(c)) {
            seq![struct_hash(t, c)]
        } else {
            seq![]
        }) + child_hashes(t, n, k + 1)
    }
}

/// The number that the little-endian bytes `b` stand for.
pub open spec fn le_value(b: Seq<u8>) -> nat
    decreases b.len(),
{
    if b.len() == 0 {
        0
    } else {
        b[0] as nat + 256 * le_value(b.drop_first())
    }
}

/// 256 to the power `n`.
pub open spec fn pow256(n: nat) -> nat
    decreases n,
{
    if n == 0 {
        1
    } else {
        256 * pow256((n - 1) as nat)
    }
}

/// The `n` low bytes of `v` stand for `v` modulo 256 to the `n`.
proof fn lemma_le_bytes_value(v: nat, n: nat)
    ensures
        pow256(n) > 0,
        le_value(le_bytes(v, n)) == v % pow256(n),
    decreases n,
{
    if n > 0 {
        lemma_le_bytes_value(v / 256, (n - 1) as nat);
        let b = le_bytes(v, n);
        assert(b.drop_first() =~= le_bytes(v / 256, (n - 1) as nat));
        assert(b[0] as nat == v % 256);
        vstd::arithmetic::div_mod::lemma_breakdown(v as int, 256, pow256((n - 1) as nat) as int);
    }
}

/// Two words written the same way are equal.
proof fn lemma_word_write_injective(a: u64, b: u64)
    requires
        le_bytes(a as nat, 8) == le_bytes(b as nat, 8),
    ensures
        a == b,
{
    lemma_le_bytes_value(a as nat, 8);
    lemma_le_bytes_value(b as nat, 8);
    reveal_with_fuel(pow256, 9);
    assert(pow256(8) == 0x1_0000_0000_0000_0000nat);
}

/// One write per word, in order.
proof fn lemma_words_writes_shape(hs: Seq<u64>)
    ensures
        words_writes(hs).len() == hs.len(),
        forall|i: int| 0 <= i < hs.len() ==> #[trigger] words_writes(hs)[i] == le_bytes(hs[i] as nat, 8),
    decreases hs.len(),
{
    if hs.len() > 0 {
        lemma_words_writes_shape(hs.drop_last());
        assert forall|i: int| 0 <= i < hs.len() implies #[trigger] words_writes(hs)[i] == le_bytes(
            hs[i] as nat,
            8,
        ) by {
            if i < hs.len() - 1 {
                assert(words_writes(hs)[i] == words_writes(hs.drop_last())[i]);
            }
        }
    }
}

/// The writes for a list of words give the words back.
proof fn lemma_words_writes_injective(h1: Seq<u64>, h2: Seq<u64>)
    requires
        words_writes(h1) == words_writes(h2),
    ensures
        h1 == h2,
{
    lemma_words_writes_shape(h1);
    lemma_words_writes_shape(h2);
    assert forall|i: int| 0 <= i < h1.len() implies h1[i] == h2[i] by {
        assert(words_writes(h1)[i] == words_writes(h2)[i]);
        lemma_word_write_injective(h1[i], h2[i]);
    }
    assert(h1 =~= h2);
}

/// Outside literals, identifiers and the kinds whose children are hashed in
/// sorted order (`object`, `object_pattern`, `named_imports`,
/// `export_clause`), the order of a node's children reaches the hasher:
/// two nodes of such a kind whose structural hashes are computed from the
/// same writes have the same child hashes in the same order, so swapping
/// two children with different hashes (two arguments of a call, say)
/// changes what is hashed.
pub proof fn lemma_child_order_is_hashed(t1: SyntaxTree, n1: int, t2: SyntaxTree, n2: int)
    requires
        0 <= n1 < t1.nodes@.len(),
        0 <= n2 < t2.nodes@.len(),
        t1.kind(n1) == t2.kind(n2),
        !is_literal_kind(t1.kind(n1)),
        t1.kind(n1) != "identifier"@,
        t1.kind(n1) != "object"@,
        t1.kind(n1) != "object_pattern"@,
        t1.kind(n1) != "named_imports"@,
        t1.kind(n1) != "export_clause"@,
        hash_writes(t1, n1) == hash_writes(t2, n2),
    ensures
        child_hashes(t1, n1, 0) == child_hashes(t2, n2, 0),
{
    let k = t1.kind(n1);
    let p = str_writes(k);
    let w1 = words_writes(child_hashes(t1, n1, 0));
    let w2 = words_writes(child_hashes(t2, n2, 0));
    assert(hash_writes(t1, n1) == p + w1);
    assert(hash_writes(t2, n2) == p + w2);
    assert(w1 =~= (p + w1).subrange(p.len() as int, (p + w1).len() as int));
    assert(w2 =~= (p + w2).subrange(p.len() as int, (p + w2).len() as int));
    lemma_words_writes_injective(child_hashes(t1, n1, 0), child_hashes(t2, n2, 0));
}

proof fn lemma_insert_at(s: Seq<u64>, x: u64, p: int)
    requires
        0 <= p <= s.len(),
        forall|i: int| 0 <= i < p ==> s[i] < x,
        p < s.len() ==> x <= s[p],
    ensures
        insert_sorted(s, x) == s.take(p) + seq![x] + s.skip(p),
    decreases s.len(),
{
    if s.len() == 0 {
        assert(s.take(p) + seq![x] + s.skip(p) =~= seq![x]);
    } else if p == 0 {
        assert(s.take(0) + seq![x] + s.skip(0) =~= seq![x] + s);
    } else {
        let t = s.drop_first();
        assert forall|i: int| 0 <= i < p - 1 implies t[i] < x by {
            assert(t[i] == s[i + 1]);
        }
        lemma_insert_at(t, x, p - 1);
        assert(s.take(p) + seq![x] + s.skip(p) =~= seq![s[0]] + (t.take(p - 1) + seq![x] + t.skip(p - 1)));
    }
}

/// `v` in ascending order (insertion sort).
fn sort_hashes(v: &Vec<u64>) -> (r: Vec<u64>)
    ensures
        r@ == sort_u64(v@),
{
    let mut r: Vec<u64> = Vec::new();
    let mut i: usize = 0;
    while i < v.len()
        invariant
            i <= v@.len(),
            r@ == sort_u64(v@.take(i as int)),
        decreases v@.len() - i,
    {
        let x = v[i];
        let mut p: usize = 0;
        while p < r.len() && r[p] < x
            invariant
                p <= r@.len(),
                forall|a: int| 0 <= a < p ==> r@[a] < x,
            decreases r@.len() - p,
        {
            p = p + 1;
        }
        proof {
            lemma_insert_at(r@, x, p as int);
            assert(v@.take(i + 1).drop_last() =~= v@.take(i as int));
            assert(v@.take(i + 1).last() == x);
        }
        let ghost before = r@;
        r.insert(p, x);
        proof {
            before.insert_ensures(p as int, x);
            assert(r@ =~= before.take(p as int) + seq![x] + before.skip(p as int));
        }
        i = i + 1;
    }
    assert(v@.take(i as int) =~= v@);
    r
}

/// Whether kind `k` is one of the literal kinds.
fn literal_kind(t: &SyntaxTree, n: usize) -> (r: bool)
    requires
        n < t.nodes@.len(),
    ensures
        r == is_literal_kind(t.kind(n as int)),
{
    t.kind_is(n, "string") || t.kind_is(n, "number") || t.kind_is(n, "true") || t.kind_is(n, "false")
        || t.kind_is(n, "null") || t.kind_is(n, "undefined") || t.kind_is(n, "regex") || t.kind_is(
        n,
        "template_string",
    )
}

fn order_independent_kind(t: &SyntaxTree, n: usize) -> (r: bool)
    requires
        n < t.nodes@.len(),
    ensures
        r == is_order_independent_kind(t.kind(n as int)),
{
    t.kind_is(n, "object") || t.kind_is(n, "object_pattern") || t.kind_is(n, "named_imports") || t.kind_is(
        n,
        "export_clause",
    )
}

fn skipped_child(t: &SyntaxTree, n: usize) -> (r: bool)
    requires
        n < t.nodes@.len(),
    ensures
        r == is_skipped_child(t.kind(n as int)),
{
    t.kind_is(n, "comment") || t.kind_is(n, ";") || t.kind_is(n, ",") || t.kind_is(n, "(") || t.kind_is(n, ")")
        || t.kind_is(n, "{") || t.kind_is(n, "}") || t.kind_is(n, "[") || t.kind_is(n, "]")
}

/// The structural hash of node `n`.
fn structural_hash_of(t: &SyntaxTree, n: usize) -> (r: u64)
    requires
        t.wf(),
        n < t.nodes@.len(),
    ensures
        r == struct_hash(*t, n as int),
    decreases t.nodes@.len() - n,
{
    let mut hasher = DefaultHasher::new();
    hash_str(&mut hasher, t.kind_str(n));
    let ghost w0 = hasher@;
    if literal_kind(t, n) {
        let text = t.text_of(n);
        hash_str(&mut hasher, text.as_str());
    } else if t.kind_is(n, "identifier") {
        hash_str(&mut hasher, "<ID>");
    } else {
        let mut hs: Vec<u64> = Vec::new();
        let nc = t.child_count(n);
        let mut k: usize = 0;
        while k < nc
            invariant
                t.wf(),
                n < t.nodes@.len(),
                nc == t.nodes@[n as int].children@.len(),
                k <= nc,
                hs@ + child_hashes(*t, n as int, k as int) == child_hashes(*t, n as int, 0),
            decreases nc - k,
        {
            let c = t.nodes[n].children[k];
            let ghost before = hs@;
            if !skipped_child(t, c) {
                let h = structural_hash_of(t, c);
                hs.push(h);
            }
            assert(hs@ + child_hashes(*t, n as int, k + 1) =~= before + child_hashes(
                *t,
                n as int,
                k as int,
            ));
            k = k + 1;
        }
        assert(hs@ =~= child_hashes(*t, n as int, 0));
        let ordered = if order_independent_kind(t, n) {
            sort_hashes(&hs)
        } else {
            hs
        };
        let ghost w1 = hasher@;
        let mut i: usize = 0;
        while i < ordered.len()
            invariant
                i <= ordered@.len(),
                hasher@ == w1 + words_writes(ordered@.take(i as int)),
            decreases ordered@.len() - i,
        {
            hash_word(&mut hasher, ordered[i]);
            assert(ordered@.take(i + 1).drop_last() =~= ordered@.take(i as int));
            i = i + 1;
        }
        assert(ordered@.take(i as int) =~= ordered@);
    }
    let r = hasher.finish();
    assert(hasher@ =~= hash_writes(*t, n as int));
    r
}

/// The hash of `value` followed by `seed`, each written as eight
/// little-endian bytes (the seed too, whatever the machine's word size).
pub open spec fn seeded_hash(value: u64, seed: usize) -> u64 {
    finish(u64_writes(value as nat) + u64_writes(seed as nat))
}

/// `value` hashed together with `seed`.
fn seeded(value: u64, seed: usize) -> (r: u64)
    ensures
        r == seeded_hash(value, seed),
{
    let mut hasher = DefaultHasher::new();
    hash_word(&mut hasher, value);
    hash_word(&mut hasher, seed as u64);
    assert(hasher@ =~= u64_writes(value as nat) + u64_writes(seed as nat));
    hasher.finish()
}

/// The least of the seed-`i` hashes of the first `k` elements of `hs`
/// (`u64::MAX` when there are none).
pub open spec fn min_seeded(hs: Seq<u64>, i: usize, k: int) -> u64
    decreases k,
{
    if k <= 0 {
        u64::MAX
    } else {
        let prev = min_seeded(hs, i, k - 1);
        let h = seeded_hash(hs[k - 1], i);
        if h < prev {
            h
        } else {
            prev
        }
    }
}

/// Whether `sig` is the MinHash signature of `hs` with `n` seeds.
pub open spec fn is_minhash(hs: Seq<u64>, n: nat, sig: Seq<u64>) -> bool {
    sig.len() == n && forall|i: int| 0 <= i < n ==> #[trigger] sig[i] == min_seeded(hs, i as usize, hs.len() as int)
}

/// The MinHash signature of `hashes`: for each seed below `num_hashes`, the
/// least seeded hash of any element.
fn minhash_of(hashes: &Vec<u64>, num_hashes: usize) -> (r: Vec<u64>)
    ensures
        is_minhash(hashes@, num_hashes as nat, r@),
{
    let mut signature: Vec<u64> = Vec::new();
    let mut i: usize = 0;
    while i < num_hashes
        invariant
            i <= num_hashes,
            signature@.len() == i,
            forall|a: int| 0 <= a < i ==> #[trigger] signature@[a] == u64::MAX,
        decreases num_hashes - i,
    {
        signature.push(u64::MAX);
        i = i + 1;
    }
    let mut k: usize = 0;
    while k < hashes.len()
        invariant
            k <= hashes@.len(),
            signature@.len() == num_hashes,
            forall|a: int| 0 <= a < num_hashes ==> #[trigger] signature@[a] == min_seeded(hashes@, a as usize, k as int),
        decreases hashes@.len() - k,
    {
        let h = hashes[k];
        let mut i: usize = 0;
        while i < num_hashes
            invariant
                k < hashes@.len(),
                h == hashes@[k as int],
                i <= num_hashes,
                signature@.len() == num_hashes,
                forall|a: int| 0 <= a < i ==> #[trigger] signature@[a] == min_seeded(hashes@, a as usize, k + 1),
                forall|a: int| i <= a < num_hashes ==> #[trigger] signature@[a] == min_seeded(hashes@, a as usize, k as int),
            decreases num_hashes - i,
        {
            let v = seeded(h, i);
            if v < signature[i] {
                signature.set(i, v);
            }
            i = i + 1;
        }
        k = k + 1;
    }
    signature
}


#[derive(Debug, Clone, Copy, PartialEq, Eq, Structural)]
pub enum DeclarationKind {
    Function,
    Variable,
    Class,
    Import,
    Export,
}

/// The word for a declaration kind: `function`, `variable`, ...
pub open spec fn kind_word(k: DeclarationKind) -> Seq<char> {
    match k {
        DeclarationKind::Function => "function"@,
        DeclarationKind::Variable => "variable"@,
        DeclarationKind::Class => "class"@,
        DeclarationKind::Import => "import"@,
        DeclarationKind::Export => "export"@,
    }
}

impl DeclarationKind {
    /// The kind as a word: `function`, `variable`, `class`, `import` or `export`.
    pub fn to_word(&self) -> (r: String)
        ensures
            r@ == kind_word(*self),
    {
        match self {
            DeclarationKind::Function => string_of("function"),
            DeclarationKind::Variable => string_of("variable"),
            DeclarationKind::Class => string_of("class"),
            DeclarationKind::Import => string_of("import"),
            DeclarationKind::Export => string_of("export"),
        }
    }
}

#[derive(Debug, Clone, Copy, PartialEq, Eq, Structural)]
pub enum ChangeType {
    Addition,
    Deletion,
    Modification,
    Reorder,
}

#[derive(Debug, Clone)]
pub struct Location {
    pub line: usize,
    pub column: usize,
    pub code_snippet: String,
    pub end_line: Option<usize>,
}

#[derive(Debug, Clone)]
pub struct Change {
    pub change_type: ChangeType,
    pub location1: Option<Location>,
    pub location2: Option<Location>,
    pub description: String,
    pub structural_path: String,
    /// The string constant changes of a modified function.
    pub string_diff: Option<StringDiff>,
}

/// A top-level declaration of a program.
#[derive(Debug, Clone)]
pub struct Declaration {
    pub name: String,
    pub kind: DeclarationKind,
    /// The declaration's node in its syntax tree.
    pub node: usize,
    pub line: usize,
    pub signature: String,
    /// The distinct structural hashes of the declaration's subtrees.
    pub structural_hashes: Vec<u64>,
    pub size: usize,
    pub minhash_signature: Vec<u64>,
    pub fingerprint: Option<FunctionFingerprint>,
}

/// A declaration without its node.
#[derive(Debug, Clone)]
pub struct SerializableDeclaration {
    pub name: String,
    pub kind: DeclarationKind,
    pub line: usize,
    pub signature: String,
    pub structural_hashes: Vec<u64>,
    pub size: usize,
    pub minhash_signature: Vec<u64>,
    pub fingerprint: Option<FunctionFingerprint>,
}

/// A declaration with the line where it ends.
#[derive(Debug, Clone)]
pub struct DeclarationData {
    pub name: String,
    pub kind: DeclarationKind,
    pub line: usize,
    pub end_line: usize,
    pub signature: String,
    pub structural_hashes: Vec<u64>,
    pub size: usize,
    pub minhash_signature: Vec<u64>,
    pub fingerprint: Option<FunctionFingerprint>,
}

/// The outcome of comparing two programs. Their similarity is the matched
/// count over the larger declaration count (one when both have none).
#[derive(Debug, Clone)]
pub struct DiffResult {
    pub identical: bool,
    pub changes: Vec<Change>,
    pub matched_declarations: usize,
    pub total_declarations1: usize,
    pub total_declarations2: usize,
}

/// Compares two programs declaration by declaration.
pub struct StructuralDiff {
    mappings1: Option<Vec<(String, String)>>,
    mappings2: Option<Vec<(String, String)>>,
    use_fingerprints: bool,
    generate_report: bool,
    report_path: Option<String>,
}

pub open spec fn opt_map_ok(m: Option<Vec<(String, String)>>) -> bool {
    match m {
        Some(v) => keys_unique(v@),
        None => true,
    }
}

impl StructuralDiff {
    pub closed spec fn uses_fingerprints(&self) -> bool {
        self.use_fingerprints
    }

    pub closed spec fn generates_report(&self) -> bool {
        self.generate_report
    }

    pub closed spec fn report_path_view(&self) -> Option<Seq<char>> {
        match self.report_path {
            Some(p) => Some(p@),
            None => None,
        }
    }

    pub closed spec fn mappings1_view(&self) -> Option<Seq<(String, String)>> {
        match self.mappings1 {
            Some(v) => Some(v@),
            None => None,
        }
    }

    pub closed spec fn mappings2_view(&self) -> Option<Seq<(String, String)>> {
        match self.mappings2 {
            Some(v) => Some(v@),
            None => None,
        }
    }

    /// Renaming tables have one entry per name.
    pub closed spec fn wf(&self) -> bool {
        opt_map_ok(self.mappings1) && opt_map_ok(self.mappings2)
    }

    /// No renaming tables, fingerprints on, no report.
    pub fn new() -> (r: StructuralDiff)
        ensures
            r.wf(),
            r.uses_fingerprints(),
            !r.generates_report(),
            r.report_path_view() is None,
            r.mappings1_view() is None,
            r.mappings2_view() is None,
    {
        StructuralDiff {
            mappings1: None,
            mappings2: None,
            use_fingerprints: true,
            generate_report: false,
            report_path: None,
        }
    }

    pub fn set_use_fingerprints(&mut self, use_fingerprints: bool)
        ensures
            final(self).uses_fingerprints() == use_fingerprints,
            final(self).generates_report() == old(self).generates_report(),
            final(self).report_path_view() == old(self).report_path_view(),
            final(self).mappings1_view() == old(self).mappings1_view(),
            final(self).mappings2_view() == old(self).mappings2_view(),
            final(self).wf() == old(self).wf(),
    {
        self.use_fingerprints = use_fingerprints;
    }

    pub fn set_generate_report(&mut self, generate_report: bool)
        ensures
            final(self).generates_report() == generate_report,
            final(self).uses_fingerprints() == old(self).uses_fingerprints(),
            final(self).report_path_view() == old(self).report_path_view(),
            final(self).mappings1_view() == old(self).mappings1_view(),
            final(self).mappings2_view() == old(self).mappings2_view(),
            final(self).wf() == old(self).wf(),
    {
        self.generate_report = generate_report;
    }

    /// Sets where the report goes, which also turns the report on.
    pub fn set_report_path(&mut self, path: String)
        ensures
            final(self).report_path_view() == Some(path@),
            final(self).generates_report(),
            final(self).uses_fingerprints() == old(self).uses_fingerprints(),
            final(self).mappings1_view() == old(self).mappings1_view(),
            final(self).mappings2_view() == old(self).mappings2_view(),
            final(self).wf() == old(self).wf(),
    {
        self.report_path = Some(path);
        self.generate_report = true;
    }

    /// The renaming (canonical name to meaningful name) of the first program.
    pub fn set_mappings1(&mut self, mappings: Vec<(String, String)>)
        requires
            keys_unique(mappings@),
            old(self).wf(),
        ensures
            final(self).wf(),
            final(self).mappings1_view() == Some(mappings@),
            final(self).mappings2_view() == old(self).mappings2_view(),
            final(self).uses_fingerprints() == old(self).uses_fingerprints(),
            final(self).generates_report() == old(self).generates_report(),
            final(self).report_path_view() == old(self).report_path_view(),
    {
        self.mappings1 = Some(mappings);
    }

    /// The renaming of the second program.
    pub fn set_mappings2(&mut self, mappings: Vec<(String, String)>)
        requires
            keys_unique(mappings@),
            old(self).wf(),
        ensures
            final(self).wf(),
            final(self).mappings2_view() == Some(mappings@),
            final(self).mappings1_view() == old(self).mappings1_view(),
            final(self).uses_fingerprints() == old(self).uses_fingerprints(),
            final(self).generates_report() == old(self).generates_report(),
            final(self).report_path_view() == old(self).report_path_view(),
    {
        self.mappings2 = Some(mappings);
    }

    /// The structural hash of node `n`.
    pub fn compute_structural_hash(&self, t: &SyntaxTree, n: usize) -> (r: u64)
        requires
            t.wf(),
            n < t.nodes@.len(),
        ensures
            r == struct_hash(*t, n as int),
    {
        structural_hash_of(t, n)
    }

    /// `value` hashed together with `seed`.
    pub fn hash_with_seed_u64(&self, value: u64, seed: usize) -> (r: u64)
        ensures
            r == seeded_hash(value, seed),
    {
        seeded(value, seed)
    }

    /// The MinHash signature of `hashes` with `num_hashes` seeds.
    pub fn compute_minhash(&self, hashes: &Vec<u64>, num_hashes: usize) -> (r: Vec<u64>)
        ensures
            is_minhash(hashes@, num_hashes as nat, r@),
    {
        minhash_of(hashes, num_hashes)
    }
}



/// The structural hash of each node, as a function of the node.
pub open spec fn hash_of_node(t: SyntaxTree) -> spec_fn(int) -> Seq<u64> {
    |m: int| seq![struct_hash(t, m)]
}

/// The structural hashes of the subtree at `n`, leaving out comment subtrees.
pub open spec fn subtree_hashes(t: SyntaxTree, n: int) -> Seq<u64> {
    gather(t, n, hash_of_node(t))
}

fn insert_unique(v: &mut Vec<u64>, x: u64)
    requires
        distinct(old(v)@),
    ensures
        distinct(final(v)@),
        forall|y: u64| #[trigger] final(v)@.contains(y) <==> old(v)@.contains(y) || y == x,
{
    let mut j: usize = 0;
    while j < v.len()
        invariant
            j <= v@.len(),
            v@ == old(v)@,
            distinct(v@),
            forall|a: int| 0 <= a < j ==> v@[a] != x,
        decreases v@.len() - j,
    {
        if v[j] == x {
            assert(v@.contains(x));
            return;
        }
        j = j + 1;
    }
    let ghost before = v@;
    v.push(x);
    assert forall|a: int, b: int| 0 <= a < b < v@.len() implies v@[a] != v@[b] by {
        if b < before.len() {
            assert(before[a] != before[b]);
        }
    }
    assert forall|y: u64| #[trigger] v@.contains(y) <==> before.contains(y) || y == x by {
        if v@.contains(y) {
            let a = choose|a: int| 0 <= a < v@.len() && v@[a] == y;
            if a < before.len() {
                assert(before[a] == y);
            }
        }
        if before.contains(y) {
            let a = choose|a: int| 0 <= a < before.len() && before[a] == y;
            assert(v@[a] == y);
        }
        if y == x {
            assert(v@[before.len() as int] == x);
        }
    }
}

fn collect_structural_hashes_recursive(t: &SyntaxTree, n: usize, hashes: &mut Vec<u64>)
    requires
        t.wf(),
        n < t.nodes@.len(),
        distinct(old(hashes)@),
    ensures
        distinct(final(hashes)@),
        forall|y: u64|
            #[trigger] final(hashes)@.contains(y) <==> old(hashes)@.contains(y) || subtree_hashes(*t, n as int).contains(
                y,
            ),
    decreases t.nodes@.len() - n,
{
    let ghost f = hash_of_node(*t);
    let ghost start = hashes@;
    let h = structural_hash_of(t, n);
    insert_unique(hashes, h);
    let ghost mut done: Seq<u64> = seq![h];
    assert forall|y: u64| #[trigger] hashes@.contains(y) <==> start.contains(y) || done.contains(y) by {
        if done.contains(y) {
            let a = choose|a: int| 0 <= a < done.len() && done[a] == y;
            assert(a == 0);
        }
        if y == h {
            assert(done[0] == h);
        }
    }
    let nc = t.child_count(n);
    let mut k: usize = 0;
    assert(done + gather_children(*t, n as int, 0, f) == f(n as int) + gather_children(*t, n as int, 0, f));
    while k < nc
        invariant
            t.wf(),
            n < t.nodes@.len(),
            nc == t.nodes@[n as int].children@.len(),
            k <= nc,
            f == hash_of_node(*t),
            distinct(hashes@),
            done + gather_children(*t, n as int, k as int, f) == f(n as int) + gather_children(*t, n as int, 0, f),
            forall|y: u64| #[trigger] hashes@.contains(y) <==> start.contains(y) || done.contains(y),
        decreases nc - k,
    {
        let c = t.nodes[n].children[k];
        let ghost before = hashes@;
        let ghost sub: Seq<u64> = if t.kind(c as int) != "comment"@ {
            gather(*t, c as int, f)
        } else {
            seq![]
        };
        if !t.kind_is(c, "comment") {
            collect_structural_hashes_recursive(t, c, hashes);
        }
        proof {
            assert(gather_children(*t, n as int, k as int, f) == sub + gather_children(*t, n as int, k + 1, f));
            assert((done + sub) + gather_children(*t, n as int, k + 1, f) =~= done + gather_children(
                *t,
                n as int,
                k as int,
                f,
            ));
            assert forall|y: u64| #[trigger] hashes@.contains(y) <==> start.contains(y) || (done + sub).contains(y) by {
                if (done + sub).contains(y) {
                    let a = choose|a: int| 0 <= a < (done + sub).len() && (done + sub)[a] == y;
                    if a < done.len() {
                        assert(done[a] == y);
                        assert(done.contains(y));
                    } else {
                        assert(sub[a - done.len()] == y);
                        assert(sub.contains(y));
                    }
                }
                if done.contains(y) {
                    let a = choose|a: int| 0 <= a < done.len() && done[a] == y;
                    assert((done + sub)[a] == y);
                }
                if sub.contains(y) {
                    let a = choose|a: int| 0 <= a < sub.len() && sub[a] == y;
                    assert((done + sub)[done.len() + a] == y);
                }
            }
            done = done + sub;
        }
        k = k + 1;
    }
    proof {
        assert(gather_children(*t, n as int, k as int, f).len() == 0);
        assert(done =~= done + gather_children(*t, n as int, k as int, f));
        assert(subtree_hashes(*t, n as int) == f(n as int) + gather_children(*t, n as int, 0, f));
    }
}

/// The distinct structural hashes of the subtree at `n`.
fn collect_structural_hashes(t: &SyntaxTree, n: usize) -> (r: Vec<u64>)
    requires
        t.wf(),
        n < t.nodes@.len(),
    ensures
        distinct(r@),
        forall|y: u64| #[trigger] r@.contains(y) <==> subtree_hashes(*t, n as int).contains(y),
{
    let mut hashes: Vec<u64> = Vec::new();
    collect_structural_hashes_recursive(t, n, &mut hashes);
    hashes
}

/// The number of children `k..` of `n` whose kind satisfies `p`.
pub open spec fn count_kinds(t: SyntaxTree, n: int, k: int, p: spec_fn(Seq<char>) -> bool) -> nat
    decreases t.nodes@[n].children@.len() - k,
{
    if k < 0 || k >= t.nodes@[n].children@.len() {
        0
    } else {
        (if p(t.kind(t.nodes@[n].children@[k] as int)) {
            1nat
        } else {
            0nat
        }) + count_kinds(t, n, k + 1, p)
    }
}

pub open spec fn kind_is(name: Seq<char>) -> spec_fn(Seq<char>) -> bool {
    |k: Seq<char>| k == name
}

pub open spec fn parameter_like() -> spec_fn(Seq<char>) -> bool {
    |k: Seq<char>| k == "identifier"@ || k == "formal_parameters"@
}

pub open spec fn statement_like() -> spec_fn(Seq<char>) -> bool {
    |k: Seq<char>| !(k == "{"@ || k == "}"@ || k == ";"@)
}

pub open spec fn any_kind() -> spec_fn(Seq<char>) -> bool {
    |k: Seq<char>| true
}

/// The number of children of `n` of kind `name`.
fn count_children_of_kind(t: &SyntaxTree, n: usize, name: &str) -> (r: usize)
    requires
        t.wf(),
        n < t.nodes@.len(),
    ensures
        r == count_kinds(*t, n as int, 0, kind_is(name@)),
{
    let nc = t.child_count(n);
    let mut k: usize = nc;
    let mut r: usize = 0;
    while k > 0
        invariant
            t.wf(),
            n < t.nodes@.len(),
            nc == t.nodes@[n as int].children@.len(),
            k <= nc,
            r == count_kinds(*t, n as int, k as int, kind_is(name@)),
            r <= nc - k,
        decreases k,
    {
        k = k - 1;
        if t.kind_is(t.nodes[n].children[k], name) {
            r = r + 1;
        }
    }
    r
}

fn count_parameter_like(t: &SyntaxTree, n: usize) -> (r: usize)
    requires
        t.wf(),
        n < t.nodes@.len(),
    ensures
        r == count_kinds(*t, n as int, 0, parameter_like()),
{
    let nc = t.child_count(n);
    let mut k: usize = nc;
    let mut r: usize = 0;
    while k > 0
        invariant
            t.wf(),
            n < t.nodes@.len(),
            nc == t.nodes@[n as int].children@.len(),
            k <= nc,
            r == count_kinds(*t, n as int, k as int, parameter_like()),
            r <= nc - k,
        decreases k,
    {
        k = k - 1;
        let c = t.nodes[n].children[k];
        if t.kind_is(c, "identifier") || t.kind_is(c, "formal_parameters") {
            r = r + 1;
        }
    }
    r
}

fn count_statement_like(t: &SyntaxTree, n: usize) -> (r: usize)
    requires
        t.wf(),
        n < t.nodes@.len(),
    ensures
        r == count_kinds(*t, n as int, 0, statement_like()),
{
    let nc = t.child_count(n);
    let mut k: usize = nc;
    let mut r: usize = 0;
    while k > 0
        invariant
            t.wf(),
            n < t.nodes@.len(),
            nc == t.nodes@[n as int].children@.len(),
            k <= nc,
            r == count_kinds(*t, n as int, k as int, statement_like()),
            r <= nc - k,
        decreases k,
    {
        k = k - 1;
        let c = t.nodes[n].children[k];
        if !(t.kind_is(c, "{") || t.kind_is(c, "}") || t.kind_is(c, ";")) {
            r = r + 1;
        }
    }
    r
}

proof fn lemma_count_all(t: SyntaxTree, n: int, k: int)
    requires
        0 <= k <= t.nodes@[n].children@.len(),
    ensures
        count_kinds(t, n, k, any_kind()) == t.nodes@[n].children@.len() - k,
    decreases t.nodes@[n].children@.len() - k,
{
    if k < t.nodes@[n].children@.len() {
        lemma_count_all(t, n, k + 1);
    }
}

/// `function(params:P,stmts:S)`: P counts the parameters, S the statements of the body.
pub open spec fn function_signature(t: SyntaxTree, n: int) -> Seq<char> {
    "function("@ + (match t.child_by_field(n, "parameters"@) {
        Some(p) => "params:"@ + decimal(count_kinds(t, p as int, 0, parameter_like())),
        None => "params:0"@,
    }) + ","@ + (match t.child_by_field(n, "body"@) {
        Some(b) => "stmts:"@ + decimal(count_kinds(t, b as int, 0, statement_like())),
        None => "stmts:0"@,
    }) + ")"@
}

/// What a variable declarator's initial value looks like.
pub open spec fn variable_signature(t: SyntaxTree, n: int) -> Seq<char> {
    match t.child_by_field(n, "value"@) {
        Some(init) => {
            let i = init as int;
            let k = t.kind(i);
            if k == "number"@ {
                "var=number:"@ + t.text(i)
            } else if k == "string"@ {
                "var=string:len"@ + decimal(crate::fingerprint::capped_nat(utf8_len(t.text(i))) as nat)
            } else if k == "true"@ || k == "false"@ {
                "var=bool:"@ + k
            } else if k == "array"@ {
                "var=array:len"@ + decimal(t.nodes@[i].children@.len())
            } else if k == "object"@ {
                "var=object:props"@ + decimal(count_kinds(t, i, 0, kind_is("pair"@)))
            } else if k == "arrow_function"@ || k == "function"@ {
                "var=function:params"@ + decimal(
                    match t.child_by_field(i, "parameters"@) {
                        Some(p) => t.nodes@[p as int].children@.len(),
                        None => if t.child_by_field(i, "parameter"@) is Some {
                            1nat
                        } else {
                            0nat
                        },
                    },
                )
            } else {
                "var="@ + k
            }
        },
        None => "var=undefined"@,
    }
}

/// `class(methods:M,fields:F)` from the class body, or `class()`.
pub open spec fn class_signature(t: SyntaxTree, n: int) -> Seq<char> {
    match t.child_by_field(n, "body"@) {
        Some(b) => "class(methods:"@ + decimal(count_kinds(t, b as int, 0, kind_is("method_definition"@))) + ",fields:"@
            + decimal(count_kinds(t, b as int, 0, kind_is("field_definition"@))) + ")"@,
        None => "class()"@,
    }
}

/// The text of the first child `k..` of `n` of kind `name`, if any.
pub open spec fn first_child_text(t: SyntaxTree, n: int, k: int, name: Seq<char>) -> Option<Seq<char>>
    decreases t.nodes@[n].children@.len() - k,
{
    if k < 0 || k >= t.nodes@[n].children@.len() {
        None
    } else if t.kind(t.nodes@[n].children@[k] as int) == name {
        Some(t.text(t.nodes@[n].children@[k] as int))
    } else {
        first_child_text(t, n, k + 1, name)
    }
}

/// `import from <source>`.
pub open spec fn import_signature(t: SyntaxTree, n: int) -> Seq<char> {
    "import from "@ + match first_child_text(t, n, 0, "string"@) {
        Some(s) => s,
        None => seq![],
    }
}

pub open spec fn export_signature(t: SyntaxTree, n: int) -> Seq<char> {
    if t.child_by_field(n, "declaration"@) is Some {
        "export declaration"@
    } else {
        match t.child_by_field(n, "clause"@) {
            Some(c) => "export "@ + decimal(count_kinds(t, c as int, 0, kind_is("export_specifier"@))) + " items"@,
            None => "export"@,
        }
    }
}

impl StructuralDiff {
    fn get_function_signature(&self, t: &SyntaxTree, n: usize) -> (r: String)
        requires
            t.wf(),
            n < t.nodes@.len(),
        ensures
            r@ == function_signature(*t, n as int),
    {
        let mut s = string_of("function(");
        match t.child_by_field_name(n, "parameters") {
            Some(p) => {
                push_str(&mut s, "params:");
                push_decimal(&mut s, count_parameter_like(t, p));
            },
            None => push_str(&mut s, "params:0"),
        }
        push_str(&mut s, ",");
        match t.child_by_field_name(n, "body") {
            Some(b) => {
                push_str(&mut s, "stmts:");
                push_decimal(&mut s, count_statement_like(t, b));
            },
            None => push_str(&mut s, "stmts:0"),
        }
        push_str(&mut s, ")");
        assert(s@ =~= function_signature(*t, n as int));
        s
    }

    fn get_variable_signature(&self, t: &SyntaxTree, n: usize) -> (r: String)
        requires
            t.wf(),
            n < t.nodes@.len(),
        ensures
            r@ == variable_signature(*t, n as int),
    {
        match t.child_by_field_name(n, "value") {
            Some(init) => {
                let mut s = String::new();
                if t.kind_is(init, "number") {
                    push_str(&mut s, "var=number:");
                    push_str(&mut s, t.text_of(init).as_str());
                } else if t.kind_is(init, "string") {
                    push_str(&mut s, "var=string:len");
                    push_decimal(&mut s, byte_len(t.text_of(init).as_str()));
                } else if t.kind_is(init, "true") || t.kind_is(init, "false") {
                    push_str(&mut s, "var=bool:");
                    push_str(&mut s, t.kind_str(init));
                } else if t.kind_is(init, "array") {
                    push_str(&mut s, "var=array:len");
                    push_decimal(&mut s, t.child_count(init));
                } else if t.kind_is(init, "object") {
                    push_str(&mut s, "var=object:props");
                    push_decimal(&mut s, count_children_of_kind(t, init, "pair"));
                } else if t.kind_is(init, "arrow_function") || t.kind_is(init, "function") {
                    push_str(&mut s, "var=function:params");
                    let count: usize = match t.child_by_field_name(init, "parameters") {
                        Some(p) => t.child_count(p),
                        None => if t.child_by_field_name(init, "parameter").is_some() {
                            1
                        } else {
                            0
                        },
                    };
                    push_decimal(&mut s, count);
                } else {
                    push_str(&mut s, "var=");
                    push_str(&mut s, t.kind_str(init));
                }
                assert(s@ =~= variable_signature(*t, n as int));
                s
            },
            None => string_of("var=undefined"),
        }
    }

    fn get_class_signature(&self, t: &SyntaxTree, n: usize) -> (r: String)
        requires
            t.wf(),
            n < t.nodes@.len(),
        ensures
            r@ == class_signature(*t, n as int),
    {
        match t.child_by_field_name(n, "body") {
            Some(b) => {
                let mut s = string_of("class(methods:");
                push_decimal(&mut s, count_children_of_kind(t, b, "method_definition"));
                push_str(&mut s, ",fields:");
                push_decimal(&mut s, count_children_of_kind(t, b, "field_definition"));
                push_str(&mut s, ")");
                assert(s@ =~= class_signature(*t, n as int));
                s
            },
            None => string_of("class()"),
        }
    }

    fn get_import_signature(&self, t: &SyntaxTree, n: usize) -> (r: String)
        requires
            t.wf(),
            n < t.nodes@.len(),
        ensures
            r@ == import_signature(*t, n as int),
    {
        let mut s = string_of("import from ");
        let nc = t.child_count(n);
        let mut k: usize = 0;
        while k < nc
            invariant
                t.wf(),
                n < t.nodes@.len(),
                nc == t.nodes@[n as int].children@.len(),
                k <= nc,
                first_child_text(*t, n as int, 0, "string"@) == first_child_text(*t, n as int, k as int, "string"@),
                s@ == "import from "@,
            decreases nc - k,
        {
            let c = t.nodes[n].children[k];
            if t.kind_is(c, "string") {
                push_str(&mut s, t.text_of(c).as_str());
                return s;
            }
            k = k + 1;
        }
        assert(s@ =~= import_signature(*t, n as int));
        s
    }

    fn get_export_signature(&self, t: &SyntaxTree, n: usize) -> (r: String)
        requires
            t.wf(),
            n < t.nodes@.len(),
        ensures
            r@ == export_signature(*t, n as int),
    {
        if t.child_by_field_name(n, "declaration").is_some() {
            string_of("export declaration")
        } else {
            match t.child_by_field_name(n, "clause") {
                Some(c) => {
                    let mut s = string_of("export ");
                    push_decimal(&mut s, count_children_of_kind(t, c, "export_specifier"));
                    push_str(&mut s, " items");
                    assert(s@ =~= export_signature(*t, n as int));
                    s
                },
                None => string_of("export"),
            }
        }
    }
}



/// A declaration found in a tree, as plain values: its node, kind, name,
/// line (from one), the node whose subtree gives its structural hashes, and
/// its signature.
pub type DeclItem = (usize, DeclarationKind, Seq<char>, usize, usize, Seq<char>);

/// Whether `n` is the root or the first child of its parent.
pub open spec fn is_first_or_root(t: SyntaxTree, n: int) -> bool {
    match t.nodes@[n].parent {
        None => true,
        Some(p) => match t.child_at(p as int, 0) {
            Some(c0) => c0 == n,
            None => true,
        },
    }
}

pub open spec fn line_of(t: SyntaxTree, n: int) -> usize {
    (t.nodes@[n].start_row + 1) as usize
}

/// The variable declarators among children `k..` of declaration `n` that
/// have an initial value and a plain name.
pub open spec fn declarator_items(t: SyntaxTree, n: int, k: int) -> Seq<DeclItem>
    decreases t.nodes@[n].children@.len() - k,
{
    if k < 0 || k >= t.nodes@[n].children@.len() {
        seq![]
    } else {
        let c = t.nodes@[n].children@[k] as int;
        (if t.kind(c) == "variable_declarator"@ {
            match (t.child_by_field(c, "value"@), t.child_by_field(c, "name"@)) {
                (Some(v), Some(nm)) => if t.kind(nm as int) == "identifier"@ {
                    seq![
                        (
                            c as usize,
                            DeclarationKind::Variable,
                            t.text(nm as int),
                            line_of(t, c),
                            v,
                            variable_signature(t, c),
                        ),
                    ]
                } else {
                    seq![]
                },
                _ => seq![],
            }
        } else {
            seq![]
        }) + declarator_items(t, n, k + 1)
    }
}

/// The declarations found from node `n`: named functions and classes,
/// imports, exports (or what they export), and, at the global level,
/// `var`, `let` and `const` variables with an initial value; the search goes down from the root
/// through first children only.
pub open spec fn decl_items(t: SyntaxTree, n: int, is_global: bool) -> Seq<DeclItem>
    decreases t.nodes@.len() - n, 1int, 0int,
{
    if !(0 <= n < t.nodes@.len()) {
        seq![]
    } else {
        let k = t.kind(n);
        let row = t.nodes@[n].start_row;
        if k == "function_declaration"@ {
            match t.child_by_field(n, "name"@) {
                Some(nm) => seq![
                    (
                        n as usize,
                        DeclarationKind::Function,
                        t.text(nm as int),
                        line_of(t, n),
                        n as usize,
                        function_signature(t, n),
                    ),
                ],
                None => seq![],
            }
        } else if (k == "variable_declaration"@ || k == "lexical_declaration"@) && is_global {
            declarator_items(t, n, 0)
        } else if k == "class_declaration"@ {
            match t.child_by_field(n, "name"@) {
                Some(nm) => seq![
                    (
                        n as usize,
                        DeclarationKind::Class,
                        t.text(nm as int),
                        line_of(t, n),
                        n as usize,
                        class_signature(t, n),
                    ),
                ],
                None => seq![],
            }
        } else if k == "import_statement"@ {
            seq![
                (
                    n as usize,
                    DeclarationKind::Import,
                    "import@"@ + decimal(row as nat),
                    line_of(t, n),
                    n as usize,
                    import_signature(t, n),
                ),
            ]
        } else if k == "export_statement"@ {
            match t.child_by_field(n, "declaration"@) {
                Some(d) => if n < d < t.nodes@.len() {
                    decl_items(t, d as int, is_global)
                } else {
                    seq![]
                },
                None => seq![
                    (
                        n as usize,
                        DeclarationKind::Export,
                        "export@"@ + decimal(row as nat),
                        line_of(t, n),
                        n as usize,
                        export_signature(t, n),
                    ),
                ],
            }
        } else if is_global && is_first_or_root(t, n) {
            children_items(t, n, 0)
        } else {
            seq![]
        }
    }
}

pub open spec fn children_items(t: SyntaxTree, n: int, k: int) -> Seq<DeclItem>
    decreases t.nodes@.len() - n, 0int, t.nodes@[n].children@.len() - k,
{
    if !(0 <= n < t.nodes@.len()) || k < 0 || k >= t.nodes@[n].children@.len() {
        seq![]
    } else {
        let c = t.nodes@[n].children@[k] as int;
        (if n < c < t.nodes@.len() {
            decl_items(t, c, t.kind(c) != "function_declaration"@ && t.kind(c) != "class_declaration"@)
        } else {
            seq![]
        }) + children_items(t, n, k + 1)
    }
}

/// Whether `d` is the declaration that `item` describes: its fields, its
/// distinct structural hashes (those of the item's hash root), their number,
/// their 128-seed MinHash signature, and, for a function or variable, the
/// fingerprint of its node.
pub open spec fn declaration_matches(t: SyntaxTree, d: Declaration, item: DeclItem) -> bool {
    &&& d.node == item.0
    &&& d.kind == item.1
    &&& d.name@ == item.2
    &&& d.line == item.3
    &&& d.signature@ == item.5
    &&& distinct(d.structural_hashes@)
    &&& forall|y: u64|
        #[trigger] d.structural_hashes@.contains(y) <==> subtree_hashes(t, item.4 as int).contains(y)
    &&& d.size == d.structural_hashes@.len()
    &&& is_minhash(d.structural_hashes@, 128, d.minhash_signature@)
    &&& if item.1 == DeclarationKind::Function || item.1 == DeclarationKind::Variable {
        d.fingerprint matches Some(fp) && fingerprint_matches(t, item.0 as int, fp)
    } else {
        d.fingerprint is None
    }
}

/// Whether `after` is `before` followed by a declaration for each of `items`.
pub open spec fn extends_decls(t: SyntaxTree, before: Seq<Declaration>, after: Seq<Declaration>, items: Seq<DeclItem>) -> bool {
    &&& after.len() == before.len() + items.len()
    &&& after.take(before.len() as int) == before
    &&& forall|k: int| 0 <= k < items.len() ==> declaration_matches(t, #[trigger] after[before.len() + k], items[k])
}

proof fn lemma_extends_decls_trans(
    t: SyntaxTree,
    a: Seq<Declaration>,
    b: Seq<Declaration>,
    c: Seq<Declaration>,
    i1: Seq<DeclItem>,
    i2: Seq<DeclItem>,
)
    requires
        extends_decls(t, a, b, i1),
        extends_decls(t, b, c, i2),
    ensures
        extends_decls(t, a, c, i1 + i2),
{
    assert(c.take(a.len() as int) =~= a) by {
        assert forall|i: int| 0 <= i < a.len() implies c[i] == a[i] by {
            assert(c.take(b.len() as int)[i] == b[i]);
            assert(b.take(a.len() as int)[i] == a[i]);
        }
    }
    assert forall|k: int| 0 <= k < (i1 + i2).len() implies declaration_matches(t, #[trigger] c[a.len() + k], (i1 + i2)[k]) by {
        if k < i1.len() {
            assert(c.take(b.len() as int)[a.len() + k] == b[a.len() + k]);
            assert(declaration_matches(t, b[a.len() + k], i1[k]));
        } else {
            let k2 = k - i1.len();
            assert(declaration_matches(t, c[b.len() + k2], i2[k2]));
        }
    }
}

proof fn lemma_extends_decls_none(t: SyntaxTree, a: Seq<Declaration>)
    ensures
        extends_decls(t, a, a, seq![]),
{
    assert(a.take(a.len() as int) =~= a);
}

impl StructuralDiff {
    /// Builds the declaration that `item` describes.
    fn create_declaration(
        &self,
        t: &SyntaxTree,
        name: String,
        kind: DeclarationKind,
        node: usize,
        line: usize,
        signature: String,
        hash_root: usize,
    ) -> (d: Declaration)
        requires
            t.wf(),
            node < t.nodes@.len(),
            hash_root < t.nodes@.len(),
        ensures
            declaration_matches(*t, d, (node, kind, name@, line, hash_root, signature@)),
    {
        let structural_hashes = collect_structural_hashes(t, hash_root);
        let size = structural_hashes.len();
        let minhash_signature = minhash_of(&structural_hashes, 128);
        let fingerprint = if kind == DeclarationKind::Function || kind == DeclarationKind::Variable {
            let source = string_of_chars(&t.source);
            let extractor = FingerprintExtractor::new(source.as_str());
            Some(extractor.extract_function_fingerprint(t, node))
        } else {
            None
        };
        Declaration { name, kind, node, line, signature, structural_hashes, size, minhash_signature, fingerprint }
    }

    fn push_declaration(
        &self,
        t: &SyntaxTree,
        decls: &mut Vec<Declaration>,
        name: String,
        kind: DeclarationKind,
        node: usize,
        line: usize,
        signature: String,
        hash_root: usize,
    )
        requires
            t.wf(),
            node < t.nodes@.len(),
            hash_root < t.nodes@.len(),
        ensures
            extends_decls(*t, old(decls)@, final(decls)@, seq![(node, kind, name@, line, hash_root, signature@)]),
    {
        let ghost item = (node, kind, name@, line, hash_root, signature@);
        let d = self.create_declaration(t, name, kind, node, line, signature, hash_root);
        decls.push(d);
        assert(decls@.take(old(decls)@.len() as int) =~= old(decls)@);
        assert(decls@[old(decls)@.len() + 0int] == d);
    }

    fn extract_declarators(&self, t: &SyntaxTree, n: usize, decls: &mut Vec<Declaration>)
        requires
            t.wf(),
            positions_bounded(*t),
            n < t.nodes@.len(),
        ensures
            extends_decls(*t, old(decls)@, final(decls)@, declarator_items(*t, n as int, 0)),
    {
        let nc = t.child_count(n);
        let mut k: usize = 0;
        proof {
            lemma_extends_decls_none(*t, decls@);
            assert(extends_decls(*t, old(decls)@, decls@, seq![]) && Seq::<DeclItem>::empty() + declarator_items(
                *t,
                n as int,
                0,
            ) == declarator_items(*t, n as int, 0));
        }
        while k < nc
            invariant
                t.wf(),
                positions_bounded(*t),
                n < t.nodes@.len(),
                nc == t.nodes@[n as int].children@.len(),
                k <= nc,
                exists|done: Seq<DeclItem>|
                    extends_decls(*t, old(decls)@, decls@, done) && done + declarator_items(*t, n as int, k as int)
                        == declarator_items(*t, n as int, 0),
            decreases nc - k,
        {
            let ghost done = choose|done: Seq<DeclItem>|
                extends_decls(*t, old(decls)@, decls@, done) && done + declarator_items(*t, n as int, k as int)
                    == declarator_items(*t, n as int, 0);
            let ghost before = decls@;
            let c = t.nodes[n].children[k];
            let ghost mine: Seq<DeclItem> = declarator_items(*t, n as int, k as int).take(
                declarator_items(*t, n as int, k as int).len() - declarator_items(*t, n as int, k + 1).len(),
            );
            let mut pushed = false;
            if t.kind_is(c, "variable_declarator") {
                match (t.child_by_field_name(c, "value"), t.child_by_field_name(c, "name")) {
                    (Some(v), Some(nm)) => {
                        if t.kind_is(nm, "identifier") {
                            let name = t.text_of(nm);
                            let signature = self.get_variable_signature(t, c);
                            assert(t.nodes@[c as int].start_row < usize::MAX);
                            self.push_declaration(
                                t,
                                decls,
                                name,
                                DeclarationKind::Variable,
                                c,
                                t.nodes[c].start_row + 1,
                                signature,
                                v,
                            );
                            pushed = true;
                        }
                    },
                    _ => {},
                }
            }
            proof {
                let here = declarator_items(*t, n as int, k as int);
                let next = declarator_items(*t, n as int, k + 1);
                if pushed {
                    let it = here[0];
                    assert(here == seq![it] + next);
                    lemma_extends_decls_trans(*t, old(decls)@, before, decls@, done, seq![it]);
                    assert((done + seq![it]) + next =~= done + here);
                    assert(extends_decls(*t, old(decls)@, decls@, done + seq![it]));
                } else {
                    assert(here == next);
                    assert(decls@ == before);
                }
            }
            k = k + 1;
        }
        proof {
            let done = choose|done: Seq<DeclItem>|
                extends_decls(*t, old(decls)@, decls@, done) && done + declarator_items(*t, n as int, k as int)
                    == declarator_items(*t, n as int, 0);
            assert(done =~= done + declarator_items(*t, n as int, k as int));
        }
    }
}



impl StructuralDiff {
    fn extract_declarations_recursive(&self, t: &SyntaxTree, n: usize, decls: &mut Vec<Declaration>, is_global: bool)
        requires
            t.wf(),
            positions_bounded(*t),
            n < t.nodes@.len(),
        ensures
            extends_decls(*t, old(decls)@, final(decls)@, decl_items(*t, n as int, is_global)),
        decreases t.nodes@.len() - n,
    {
        let ghost items = decl_items(*t, n as int, is_global);
        assert(t.nodes@[n as int].start_row < usize::MAX);
        let row = t.nodes[n].start_row;
        if t.kind_is(n, "function_declaration") {
            match t.child_by_field_name(n, "name") {
                Some(nm) => {
                    let name = t.text_of(nm);
                    let signature = self.get_function_signature(t, n);
                    self.push_declaration(t, decls, name, DeclarationKind::Function, n, row + 1, signature, n);
                },
                None => {
                    proof {
                        lemma_extends_decls_none(*t, decls@);
                    }
                },
            }
        } else if (t.kind_is(n, "variable_declaration") || t.kind_is(n, "lexical_declaration")) && is_global {
            self.extract_declarators(t, n, decls);
        } else if t.kind_is(n, "class_declaration") {
            match t.child_by_field_name(n, "name") {
                Some(nm) => {
                    let name = t.text_of(nm);
                    let signature = self.get_class_signature(t, n);
                    self.push_declaration(t, decls, name, DeclarationKind::Class, n, row + 1, signature, n);
                },
                None => {
                    proof {
                        lemma_extends_decls_none(*t, decls@);
                    }
                },
            }
        } else if t.kind_is(n, "import_statement") {
            let mut name = string_of("import@");
            push_decimal(&mut name, row);
            let signature = self.get_import_signature(t, n);
            self.push_declaration(t, decls, name, DeclarationKind::Import, n, row + 1, signature, n);
        } else if t.kind_is(n, "export_statement") {
            match t.child_by_field_name(n, "declaration") {
                Some(d) => {
                    self.extract_declarations_recursive(t, d, decls, is_global);
                },
                None => {
                    let mut name = string_of("export@");
                    push_decimal(&mut name, row);
                    let signature = self.get_export_signature(t, n);
                    self.push_declaration(t, decls, name, DeclarationKind::Export, n, row + 1, signature, n);
                },
            }
        } else {
            let first_or_root = match t.parent_of(n) {
                None => true,
                Some(p) => match t.child(p, 0) {
                    Some(c0) => c0 == n,
                    None => true,
                },
            };
            if is_global && first_or_root {
                let nc = t.child_count(n);
                let mut k: usize = 0;
                proof {
                    lemma_extends_decls_none(*t, decls@);
                    assert(extends_decls(*t, old(decls)@, decls@, seq![]) && Seq::<DeclItem>::empty()
                        + children_items(*t, n as int, 0) == children_items(*t, n as int, 0));
                }
                while k < nc
                    invariant
                        t.wf(),
                        positions_bounded(*t),
                        n < t.nodes@.len(),
                        nc == t.nodes@[n as int].children@.len(),
                        k <= nc,
                        exists|done: Seq<DeclItem>|
                            extends_decls(*t, old(decls)@, decls@, done) && done + children_items(
                                *t,
                                n as int,
                                k as int,
                            ) == children_items(*t, n as int, 0),
                    decreases nc - k,
                {
                    let ghost done = choose|done: Seq<DeclItem>|
                        extends_decls(*t, old(decls)@, decls@, done) && done + children_items(*t, n as int, k as int)
                            == children_items(*t, n as int, 0);
                    let ghost before = decls@;
                    let c = t.nodes[n].children[k];
                    let child_global = !t.kind_is(c, "function_declaration") && !t.kind_is(c, "class_declaration");
                    self.extract_declarations_recursive(t, c, decls, child_global);
                    proof {
                        let sub = decl_items(*t, c as int, child_global);
                        assert(children_items(*t, n as int, k as int) == sub + children_items(*t, n as int, k + 1));
                        lemma_extends_decls_trans(*t, old(decls)@, before, decls@, done, sub);
                        assert((done + sub) + children_items(*t, n as int, k + 1) =~= done + children_items(
                            *t,
                            n as int,
                            k as int,
                        ));
                    }
                    k = k + 1;
                }
                proof {
                    let done = choose|done: Seq<DeclItem>|
                        extends_decls(*t, old(decls)@, decls@, done) && done + children_items(*t, n as int, k as int)
                            == children_items(*t, n as int, 0);
                    assert(done =~= done + children_items(*t, n as int, k as int));
                }
            } else {
                proof {
                    lemma_extends_decls_none(*t, decls@);
                }
            }
        }
        proof {
            lemma_decl_kinds();
        }
    }

    /// The declarations of the tree, found from its root.
    pub fn extract_declarations(&self, t: &SyntaxTree) -> (r: Vec<Declaration>)
        requires
            t.wf(),
            positions_bounded(*t),
        ensures
            extends_decls(*t, seq![], r@, decl_items(*t, 0, true)),
    {
        let mut decls: Vec<Declaration> = Vec::new();
        self.extract_declarations_recursive(t, 0, &mut decls, true);
        decls
    }

    /// The declarations of the tree, for inspection.
    pub fn extract_declarations_for_inspection(&self, t: &SyntaxTree) -> (r: Vec<Declaration>)
        requires
            t.wf(),
            positions_bounded(*t),
        ensures
            extends_decls(*t, seq![], r@, decl_items(*t, 0, true)),
    {
        self.extract_declarations(t)
    }
}

/// The node kinds that declare things have pairwise different names.
proof fn lemma_decl_kinds()
    ensures
        "function_declaration"@.len() == 20 && "function_declaration"@[0] == 'f',
        "variable_declaration"@.len() == 20 && "variable_declaration"@[0] == 'v',
        "lexical_declaration"@.len() == 19 && "lexical_declaration"@[0] == 'l',
        "class_declaration"@.len() == 17 && "class_declaration"@[0] == 'c',
        "import_statement"@.len() == 16 && "import_statement"@[0] == 'i',
        "export_statement"@.len() == 16 && "export_statement"@[0] == 'e',
{
    reveal_strlit("function_declaration");
    reveal_strlit("variable_declaration");
    reveal_strlit("lexical_declaration");
    reveal_strlit("class_declaration");
    reveal_strlit("import_statement");
    reveal_strlit("export_statement");
}



/// `s` with each newline shown as `↵`.
pub open spec fn mark_newlines(s: Seq<char>) -> Seq<char> {
    s.map_values(|c: char| if c == '\n' { '↵' } else { c })
}

proof fn lemma_utf8_len_prefix(s: Seq<char>, j: int, i: int)
    requires
        0 <= j <= i <= s.len(),
    ensures
        utf8_len(s.take(j)) <= utf8_len(s.take(i)),
    decreases i - j,
{
    if j < i {
        lemma_utf8_len_prefix(s, j, i - 1);
        assert(s.take(i).drop_last() =~= s.take(i - 1));
    }
}

/// The number of leading characters of `c` from `k` on that fit in `max` bytes.
pub open spec fn longest_fit(c: Seq<char>, max: nat, k: nat) -> nat
    decreases c.len() - k,
{
    if k < c.len() && utf8_len(c.take((k + 1) as int)) <= max {
        longest_fit(c, max, k + 1)
    } else {
        k
    }
}

/// `s` with newlines marked; when longer than `max_len` bytes, cut to the
/// longest prefix of whole characters that fits and followed by `...`.
pub open spec fn truncated(s: Seq<char>, max_len: nat) -> Seq<char> {
    let c = mark_newlines(s);
    if utf8_len(c) <= max_len {
        c
    } else {
        c.take(longest_fit(c, max_len, 0) as int) + "..."@
    }
}

/// How many added, removed and changed declarations the changes describe:
/// additions, deletions, and those two plus the modifications whose
/// description mentions a structure change or text constant changes.
pub open spec fn line_statistics(cs: Seq<Change>) -> (nat, nat, nat)
    decreases cs.len(),
{
    if cs.len() == 0 {
        (0, 0, 0)
    } else {
        let p = line_statistics(cs.drop_last());
        let c = cs.last();
        match c.change_type {
            ChangeType::Addition => (p.0 + 1, p.1, p.2 + 1),
            ChangeType::Deletion => (p.0, p.1 + 1, p.2 + 1),
            ChangeType::Modification => if contains_seq(c.description@, "structure changed"@) || contains_seq(
                c.description@,
                "text constant changes"@,
            ) {
                (p.0, p.1, p.2 + 1)
            } else {
                p
            },
            ChangeType::Reorder => p,
        }
    }
}

/// How a change is listed in a report.
#[derive(Debug, Clone, Copy, PartialEq, Eq, Structural)]
pub enum ChangeCategory {
    Added,
    Removed,
    /// A modification of structure (or, where text changes count, of text constants).
    Restructured,
    /// A match under another name.
    Renamed,
    /// Not listed: a reorder, or another modification.
    Hidden,
}

/// The category of change `c`: additions and deletions by type; a
/// modification is structural when its description mentions a structure
/// change (or, when `with_text`, text constant changes), else a rename when
/// it mentions a match, else hidden; reorders are hidden.
pub open spec fn category_of(c: Change, with_text: bool) -> ChangeCategory {
    match c.change_type {
        ChangeType::Addition => ChangeCategory::Added,
        ChangeType::Deletion => ChangeCategory::Removed,
        ChangeType::Modification => if contains_seq(c.description@, "structure changed"@) || (with_text
            && contains_seq(c.description@, "text constant changes"@)) {
            ChangeCategory::Restructured
        } else if contains_seq(c.description@, "matched with"@) {
            ChangeCategory::Renamed
        } else {
            ChangeCategory::Hidden
        },
        ChangeType::Reorder => ChangeCategory::Hidden,
    }
}

/// The positions of the changes of `cs` in category `cat`, in order.
pub open spec fn positions_in(cs: Seq<Change>, cat: ChangeCategory, with_text: bool) -> Seq<usize>
    decreases cs.len(),
{
    if cs.len() == 0 {
        seq![]
    } else {
        let p = positions_in(cs.drop_last(), cat, with_text);
        if category_of(cs.last(), with_text) == cat {
            p.push((cs.len() - 1) as usize)
        } else {
            p
        }
    }
}

/// The index of the first occurrence of `pat` in `s` from `k` on.
pub open spec fn first_occurrence(s: Seq<char>, pat: Seq<char>, k: int) -> Option<int>
    decreases s.len() - k,
{
    if k < 0 || k >= s.len() {
        None
    } else if occurs_at(s, pat, k) {
        Some(k)
    } else {
        first_occurrence(s, pat, k + 1)
    }
}

/// `s` up to its first `->` (all of it when there is none).
pub open spec fn before_arrow(s: Seq<char>) -> Seq<char> {
    match first_occurrence(s, "->"@, 0) {
        Some(i) => s.take(i),
        None => s,
    }
}

/// The part of `s` between its first and second `->`, if it has one.
pub open spec fn second_segment(s: Seq<char>) -> Option<Seq<char>> {
    match first_occurrence(s, "->"@, 0) {
        Some(i) => Some(before_arrow(s.skip(i + 2))),
        None => None,
    }
}

/// The rename (from, to) that a change records, if it is a match
/// (`... matched with ...`) whose path is `global.<from>-><to>`.
pub open spec fn change_rename(c: Change) -> Option<(Seq<char>, Seq<char>)> {
    if c.change_type == ChangeType::Modification && contains_seq(c.description@, "matched with"@) && occurs_at(
        c.structural_path@,
        "global."@,
        0,
    ) {
        let rest = c.structural_path@.skip(7);
        match first_occurrence(rest, "->"@, 0) {
            Some(i) => Some((rest.take(i), rest.skip(i + 2))),
            None => None,
        }
    } else {
        None
    }
}

/// The renames recorded by `cs`, later ones winning.
pub open spec fn renames_of(cs: Seq<Change>) -> Map<Seq<char>, Seq<char>>
    decreases cs.len(),
{
    if cs.len() == 0 {
        Map::empty()
    } else {
        let m = renames_of(cs.drop_last());
        match change_rename(cs.last()) {
            Some(r) => m.insert(r.0, r.1),
            None => m,
        }
    }
}

/// `'name'` in `desc` replaced by `'semantic' (name)`.
pub open spec fn annotate(desc: Seq<char>, name: Seq<char>, semantic: Seq<char>) -> Seq<char> {
    replace_all(desc, "'"@ + name + "'"@, "'"@ + semantic + "' ("@ + name + ")"@)
}

/// The description of change `c` with its first program's name annotated
/// by `m1` and its second program's name annotated by `m2`.
pub open spec fn annotated_description(c: Change, m1: Seq<(String, String)>, m2: Seq<(String, String)>) -> Seq<char> {
    let path = c.structural_path@;
    let d1 = if c.location1 is Some && occurs_at(path, "global."@, 0) {
        let canonical = before_arrow(path.skip(7));
        match pair_lookup(m1, canonical) {
            Some(sem) => annotate(c.description@, canonical, sem),
            None => c.description@,
        }
    } else {
        c.description@
    };
    if c.location2 is Some {
        match second_segment(path) {
            Some(name) => match pair_lookup(m2, name) {
                Some(sem) => annotate(d1, name, sem),
                None => d1,
            },
            None => d1,
        }
    } else {
        d1
    }
}

/// The first occurrence of `pat` in `v`.
fn find_first(v: &Vec<char>, pat: &str) -> (r: Option<usize>)
    ensures
        match r {
            Some(i) => first_occurrence(v@, pat@, 0) == Some(i as int) && i < v@.len() && occurs_at(
                v@,
                pat@,
                i as int,
            ),
            None => first_occurrence(v@, pat@, 0) is None,
        },
{
    let pv = chars_of(pat);
    let mut k: usize = 0;
    while k < v.len()
        invariant
            k <= v@.len(),
            pv@ == pat@,
            first_occurrence(v@, pat@, 0) == first_occurrence(v@, pat@, k as int),
        decreases v@.len() - k,
    {
        if crate::text::matches_at(v, &pv, k) {
            return Some(k);
        }
        k = k + 1;
    }
    None
}

fn chars_from(v: &Vec<char>, start: usize) -> (r: Vec<char>)
    requires
        start <= v@.len(),
    ensures
        r@ == v@.skip(start as int),
{
    let mut r: Vec<char> = Vec::new();
    let mut i = start;
    while i < v.len()
        invariant
            start <= i <= v@.len(),
            r@ == v@.subrange(start as int, i as int),
        decreases v@.len() - i,
    {
        r.push(v[i]);
        assert(v@.subrange(start as int, i + 1) =~= v@.subrange(start as int, i as int).push(v@[i as int]));
        i = i + 1;
    }
    assert(v@.subrange(start as int, i as int) =~= v@.skip(start as int));
    r
}

fn chars_to(v: &Vec<char>, end: usize) -> (r: Vec<char>)
    requires
        end <= v@.len(),
    ensures
        r@ == v@.take(end as int),
{
    let mut r: Vec<char> = Vec::new();
    let mut i: usize = 0;
    while i < end
        invariant
            i <= end <= v@.len(),
            r@ == v@.take(i as int),
        decreases end - i,
    {
        r.push(v[i]);
        assert(v@.take(i + 1) =~= v@.take(i as int).push(v@[i as int]));
        i = i + 1;
    }
    r
}

fn before_arrow_exec(v: &Vec<char>) -> (r: Vec<char>)
    ensures
        r@ == before_arrow(v@),
{
    match find_first(v, "->") {
        Some(i) => chars_to(v, i),
        None => chars_to(v, v.len()),
    }
}

/// `'name'` in `desc` replaced by `'semantic' (name)`.
fn annotate_exec(desc: &String, name: &Vec<char>, semantic: &String) -> (r: String)
    ensures
        r@ == annotate(desc@, name@, semantic@),
{
    let n = string_of_chars(name);
    let mut from = string_of("'");
    push_str(&mut from, n.as_str());
    push_str(&mut from, "'");
    let mut to = string_of("'");
    push_str(&mut to, semantic.as_str());
    push_str(&mut to, "' (");
    push_str(&mut to, n.as_str());
    push_str(&mut to, ")");
    assert(from@ =~= "'"@ + name@ + "'"@);
    assert(to@ =~= "'"@ + semantic@ + "' ("@ + name@ + ")"@);
    proof {
        reveal_strlit("'");
    }
    let d = chars_of(desc.as_str());
    let r = replace_chars(&d, from.as_str(), to.as_str());
    string_of_chars(&r)
}

/// The line range of a location: `line`, or `line-end` when it ends on a
/// later line.
pub open spec fn range_text(loc: Location) -> Seq<char> {
    match loc.end_line {
        Some(end) => if end > loc.line {
            decimal(loc.line as nat) + "-"@ + decimal(end as nat)
        } else {
            decimal(loc.line as nat)
        },
        None => decimal(loc.line as nat),
    }
}

/// The name in a description `<prefix><kind> '<name>'`: the second piece
/// of what follows the prefix, split at ` '`, without its closing quote;
/// the whole description when it has another shape.
pub open spec fn listed_name(desc: Seq<char>, prefix: Seq<char>) -> Seq<char> {
    match without_prefix(desc, prefix) {
        Some(rest) => {
            let ps = split_on(rest, " '"@);
            if ps.len() > 1 {
                match without_suffix(ps[1], "'"@) {
                    Some(n) => n,
                    None => desc,
                }
            } else {
                desc
            }
        },
        None => desc,
    }
}

/// A listed line: `<mark> <name> (<file>:<range>)`.
pub open spec fn listed_line(mark: Seq<char>, name: Seq<char>, file: Seq<char>, loc: Location) -> Seq<char> {
    mark + " "@ + name + " ("@ + file + ":"@ + range_text(loc) + ")\n"@
}

/// Whether some change among `cs` is of type `t`.
pub open spec fn has_change(cs: Seq<Change>, t: ChangeType) -> bool {
    exists|i: int| 0 <= i < cs.len() && cs[i].change_type == t
}

/// The lines for the removals among changes `k..` that have a first location.
pub open spec fn removed_lines(cs: Seq<Change>, k: int, f1: Seq<char>) -> Seq<char>
    decreases cs.len() - k,
{
    if k < 0 || k >= cs.len() {
        seq![]
    } else {
        let c = cs[k];
        let line = match c.location1 {
            Some(loc) => if c.change_type == ChangeType::Deletion {
                listed_line("-"@, listed_name(c.description@, "Removed "@), f1, loc)
            } else {
                seq![]
            },
            None => seq![],
        };
        line + removed_lines(cs, k + 1, f1)
    }
}

/// The lines for the additions among changes `k..` that have a second location.
pub open spec fn added_lines(cs: Seq<Change>, k: int, f2: Seq<char>) -> Seq<char>
    decreases cs.len() - k,
{
    if k < 0 || k >= cs.len() {
        seq![]
    } else {
        let c = cs[k];
        let line = match c.location2 {
            Some(loc) => if c.change_type == ChangeType::Addition {
                listed_line("+"@, listed_name(c.description@, "Added "@), f2, loc)
            } else {
                seq![]
            },
            None => seq![],
        };
        line + added_lines(cs, k + 1, f2)
    }
}

/// The two lines for a modification with both locations: a rename lists
/// the old and new names (the second and fourth pieces between quotes), a
/// structural change its name twice; anything else, nothing.
pub open spec fn modified_entry(c: Change, f1: Seq<char>, f2: Seq<char>) -> Seq<char> {
    let desc = c.description@;
    match (c.location1, c.location2) {
        (Some(l1), Some(l2)) => if contains_seq(desc, "matched with"@) {
            let parts = split_on(desc, "'"@);
            if parts.len() >= 4 {
                listed_line("-"@, parts[1], f1, l1) + listed_line("+"@, parts[3], f2, l2)
            } else {
                seq![]
            }
        } else if contains_seq(desc, "structure changed"@) {
            let ps = split_on(desc, " '"@);
            let name = if ps.len() > 1 {
                split_on(ps[1], "'"@)[0]
            } else {
                desc
            };
            listed_line("-"@, name, f1, l1) + listed_line("+"@, name, f2, l2)
        } else {
            seq![]
        },
        _ => seq![],
    }
}

/// The entries for the modifications among changes `k..`, a blank line
/// before each but the first modification.
pub open spec fn modified_lines(cs: Seq<Change>, k: int, first: bool, f1: Seq<char>, f2: Seq<char>) -> Seq<char>
    decreases cs.len() - k,
{
    if k < 0 || k >= cs.len() {
        seq![]
    } else if cs[k].change_type == ChangeType::Modification {
        (if first {
            seq![]
        } else {
            "\n"@
        }) + modified_entry(cs[k], f1, f2) + modified_lines(cs, k + 1, false, f1, f2)
    } else {
        modified_lines(cs, k + 1, first, f1, f2)
    }
}

/// The lite view of changes `cs` between files named `f1` and `f2`: the
/// removed, added and modified declarations with their line ranges, each
/// section under its heading, sections separated by a blank line.
pub open spec fn lite_text(cs: Seq<Change>, f1: Seq<char>, f2: Seq<char>) -> Seq<char> {
    let d = has_change(cs, ChangeType::Deletion);
    let a = has_change(cs, ChangeType::Addition);
    let m = has_change(cs, ChangeType::Modification);
    (if d {
        "=== Removed ===\n"@ + removed_lines(cs, 0, f1)
    } else {
        seq![]
    }) + (if a {
        (if d {
            "\n"@
        } else {
            seq![]
        }) + "=== Added ===\n"@ + added_lines(cs, 0, f2)
    } else {
        seq![]
    }) + (if m {
        (if d || a {
            "\n"@
        } else {
            seq![]
        }) + "=== Modified ===\n"@ + modified_lines(cs, 0, true, f1, f2)
    } else {
        seq![]
    })
}

/// Whether some change among `cs` is of type `t`.
fn any_change(cs: &Vec<Change>, t: ChangeType) -> (r: bool)
    ensures
        r == has_change(cs@, t),
{
    let mut i: usize = 0;
    while i < cs.len()
        invariant
            i <= cs@.len(),
            forall|j: int| 0 <= j < i ==> cs@[j].change_type != t,
        decreases cs@.len() - i,
    {
        if cs[i].change_type == t {
            return true;
        }
        i = i + 1;
    }
    false
}

/// Appends the line range of `loc`.
fn push_range_text(out: &mut String, loc: &Location)
    ensures
        final(out)@ == old(out)@ + range_text(*loc),
{
    push_decimal(out, loc.line);
    match loc.end_line {
        Some(end) => {
            if end > loc.line {
                push_str(out, "-");
                push_decimal(out, end);
            }
        },
        None => {},
    }
}

/// Appends `<mark> <name> (<file>:<range>)` and a newline.
fn push_listed_line(out: &mut String, mark: &str, name: &Vec<char>, file: &str, loc: &Location)
    ensures
        final(out)@ == old(out)@ + listed_line(mark@, name@, file@, *loc),
{
    let ghost o = out@;
    push_str(out, mark);
    push_str(out, " ");
    push_range(out, name, 0, name.len());
    push_str(out, " (");
    push_str(out, file);
    push_str(out, ":");
    push_range_text(out, loc);
    push_str(out, ")\n");
    proof {
        reveal_strlit(" ");
        reveal_strlit(" (");
        reveal_strlit(":");
        reveal_strlit(")\n");
        assert(name@.subrange(0, name@.len() as int) =~= name@);
    }
    assert(out@ =~= o + listed_line(mark@, name@, file@, *loc));
}

/// The name listed for a removal or addition described by `desc`.
fn listed_name_of(desc: &String, prefix: &str) -> (r: Vec<char>)
    ensures
        r@ == listed_name(desc@, prefix@),
{
    let d = chars_of(desc.as_str());
    match strip_prefix_chars(&d, prefix) {
        Some(rest) => {
            proof {
                reveal_strlit(" '");
            }
            let ps = split_chars(&rest, " '");
            if ps.len() > 1 {
                assert(ps@.map_values(|p: Vec<char>| p@)[1] == ps@[1]@);
                match strip_suffix_chars(&ps[1], "'") {
                    Some(n) => n,
                    None => d,
                }
            } else {
                d
            }
        },
        None => d,
    }
}

/// Appends the entry for one modification.
fn push_modified_entry(out: &mut String, c: &Change, f1: &str, f2: &str)
    ensures
        final(out)@ == old(out)@ + modified_entry(*c, f1@, f2@),
{
    proof {
        reveal_strlit("'");
        reveal_strlit(" '");
    }
    match (&c.location1, &c.location2) {
        (Some(l1), Some(l2)) => {
            if str_contains(c.description.as_str(), "matched with") {
                let d = chars_of(c.description.as_str());
                let parts = split_chars(&d, "'");
                if parts.len() >= 4 {
                    assert(parts@.map_values(|p: Vec<char>| p@)[1] == parts@[1]@);
                    assert(parts@.map_values(|p: Vec<char>| p@)[3] == parts@[3]@);
                    push_listed_line(out, "-", &parts[1], f1, l1);
                    push_listed_line(out, "+", &parts[3], f2, l2);
                }
            } else if str_contains(c.description.as_str(), "structure changed") {
                let d = chars_of(c.description.as_str());
                let ps = split_chars(&d, " '");
                let name = if ps.len() > 1 {
                    assert(ps@.map_values(|p: Vec<char>| p@)[1] == ps@[1]@);
                    let mut qs = split_chars(&ps[1], "'");
                    proof {
                        crate::text::lemma_split_nonempty(ps@[1]@, "'"@, 0, seq![]);
                    }
                    assert(qs@.map_values(|p: Vec<char>| p@)[0] == qs@[0]@);
                    qs.remove(0)
                } else {
                    d
                };
                push_listed_line(out, "-", &name, f1, l1);
                push_listed_line(out, "+", &name, f2, l2);
            }
        },
        _ => {},
    }
}

/// A naive line diff of `ls1` and `ls2` from line `i`: line pairs are
/// compared in place; equal lines are shown as context (indented by two
/// spaces) only until the first difference, a differing pair as `- ` and
/// `+ ` lines, and lines that only one side has with their side's mark.
pub open spec fn unified_from(ls1: Seq<Seq<char>>, ls2: Seq<Seq<char>>, i: int, shown: bool) -> Seq<char>
    decreases ls1.len() + ls2.len() - i,
{
    if i < 0 || (i >= ls1.len() && i >= ls2.len()) {
        seq![]
    } else if i < ls1.len() && i < ls2.len() && ls1[i] == ls2[i] {
        (if shown {
            seq![]
        } else {
            "  "@ + ls1[i] + "\n"@
        }) + unified_from(ls1, ls2, i + 1, shown)
    } else if i < ls1.len() && i < ls2.len() {
        "- "@ + ls1[i] + "\n"@ + "+ "@ + ls2[i] + "\n"@ + unified_from(ls1, ls2, i + 1, true)
    } else if i < ls1.len() {
        "- "@ + ls1[i] + "\n"@ + unified_from(ls1, ls2, i + 1, true)
    } else {
        "+ "@ + ls2[i] + "\n"@ + unified_from(ls1, ls2, i + 1, true)
    }
}

/// Each line of `ls` as `mark`, the line and a newline, in order.
pub open spec fn marked_lines(mark: Seq<char>, ls: Seq<Seq<char>>) -> Seq<char>
    decreases ls.len(),
{
    if ls.len() == 0 {
        seq![]
    } else {
        mark + ls[0] + "\n"@ + marked_lines(mark, ls.drop_first())
    }
}

/// Whether `s` ends with `suffix`.
pub open spec fn ends_with(s: Seq<char>, suffix: Seq<char>) -> bool {
    suffix.len() <= s.len() && s.subrange(s.len() - suffix.len(), s.len() as int) == suffix
}

/// From line `i` on, where the first text has no more lines, the diff is
/// the remaining lines of the second text, each marked `+ `.
proof fn lemma_unified_tail_added(ls1: Seq<Seq<char>>, ls2: Seq<Seq<char>>, i: int, shown: bool)
    requires
        ls1.len() <= i <= ls2.len(),
    ensures
        unified_from(ls1, ls2, i, shown) == marked_lines("+ "@, ls2.subrange(i, ls2.len() as int)),
    decreases ls2.len() - i,
{
    if i < ls2.len() {
        lemma_unified_tail_added(ls1, ls2, i + 1, true);
        assert(ls2.subrange(i, ls2.len() as int).drop_first() =~= ls2.subrange(i + 1, ls2.len() as int));
    } else {
        assert(ls2.subrange(i, ls2.len() as int) =~= Seq::<Seq<char>>::empty());
    }
}

/// From line `i` on, where the second text has no more lines, the diff is
/// the remaining lines of the first text, each marked `- `.
proof fn lemma_unified_tail_removed(ls1: Seq<Seq<char>>, ls2: Seq<Seq<char>>, i: int, shown: bool)
    requires
        ls2.len() <= i <= ls1.len(),
    ensures
        unified_from(ls1, ls2, i, shown) == marked_lines("- "@, ls1.subrange(i, ls1.len() as int)),
    decreases ls1.len() - i,
{
    if i < ls1.len() {
        lemma_unified_tail_removed(ls1, ls2, i + 1, true);
        assert(ls1.subrange(i, ls1.len() as int).drop_first() =~= ls1.subrange(i + 1, ls1.len() as int));
    } else {
        assert(ls1.subrange(i, ls1.len() as int) =~= Seq::<Seq<char>>::empty());
    }
}

/// Whatever the lines before position `i` hold, the diff from `i` on ends
/// with the lines that only the longer text has, each with its side's mark.
proof fn lemma_unified_ends_with_tail(ls1: Seq<Seq<char>>, ls2: Seq<Seq<char>>, i: int, shown: bool)
    requires
        0 <= i,
        i <= ls1.len() || i <= ls2.len(),
    ensures
        ls1.len() <= ls2.len() ==> ends_with(
            unified_from(ls1, ls2, i, shown),
            marked_lines("+ "@, ls2.subrange(if i < ls1.len() { ls1.len() as int } else { i }, ls2.len() as int)),
        ),
        ls2.len() <= ls1.len() ==> ends_with(
            unified_from(ls1, ls2, i, shown),
            marked_lines("- "@, ls1.subrange(if i < ls2.len() { ls2.len() as int } else { i }, ls1.len() as int)),
        ),
    decreases ls1.len() + ls2.len() - i,
{
    let u = unified_from(ls1, ls2, i, shown);
    if i >= ls1.len() && ls1.len() <= ls2.len() {
        lemma_unified_tail_added(ls1, ls2, i, shown);
        assert(u.subrange(0, u.len() as int) =~= u);
    } else if i >= ls2.len() && ls2.len() <= ls1.len() {
        lemma_unified_tail_removed(ls1, ls2, i, shown);
        assert(u.subrange(0, u.len() as int) =~= u);
    } else {
        // both texts have line `i`
        let next = if ls1[i] == ls2[i] { shown } else { true };
        lemma_unified_ends_with_tail(ls1, ls2, i + 1, next);
        let rest = unified_from(ls1, ls2, i + 1, next);
        let head = u.subrange(0, u.len() - rest.len());
        assert(u =~= head + rest);
        if ls1.len() <= ls2.len() {
            let m = marked_lines("+ "@, ls2.subrange(ls1.len() as int, ls2.len() as int));
            assert(u.subrange(u.len() - m.len(), u.len() as int) =~= rest.subrange(
                rest.len() - m.len(),
                rest.len() as int,
            ));
        }
        if ls2.len() <= ls1.len() {
            let m = marked_lines("- "@, ls1.subrange(ls2.len() as int, ls1.len() as int));
            assert(u.subrange(u.len() - m.len(), u.len() as int) =~= rest.subrange(
                rest.len() - m.len(),
                rest.len() as int,
            ));
        }
    }
}

/// Every line of the second text beyond the length of the first shows up,
/// in order, at the end of the diff as `+ ` and the line; every line of the
/// first beyond the length of the second as `- ` and the line; whatever
/// came before.
pub proof fn lemma_unified_diff_keeps_extra_lines(ls1: Seq<Seq<char>>, ls2: Seq<Seq<char>>)
    ensures
        ls1.len() <= ls2.len() ==> ends_with(
            unified_from(ls1, ls2, 0, false),
            marked_lines("+ "@, ls2.subrange(ls1.len() as int, ls2.len() as int)),
        ),
        ls2.len() <= ls1.len() ==> ends_with(
            unified_from(ls1, ls2, 0, false),
            marked_lines("- "@, ls1.subrange(ls2.len() as int, ls1.len() as int)),
        ),
{
    lemma_unified_ends_with_tail(ls1, ls2, 0, false);
}

/// Up to the first line where the texts differ, the diff shows each line
/// as context.
proof fn lemma_unified_context(ls1: Seq<Seq<char>>, ls2: Seq<Seq<char>>, j: int, i: int)
    requires
        0 <= j <= i,
        i <= ls1.len(),
        i <= ls2.len(),
        ls1.take(i) == ls2.take(i),
    ensures
        unified_from(ls1, ls2, j, false) == marked_lines("  "@, ls1.subrange(j, i)) + unified_from(ls1, ls2, i, false),
    decreases i - j,
{
    if j < i {
        assert(ls1[j] == ls1.take(i)[j]);
        assert(ls2[j] == ls2.take(i)[j]);
        lemma_unified_context(ls1, ls2, j + 1, i);
        assert(ls1.subrange(j, i).drop_first() =~= ls1.subrange(j + 1, i));
    } else {
        assert(ls1.subrange(j, i) =~= Seq::<Seq<char>>::empty());
    }
}

/// Two texts with the same lines: the diff shows every line as context,
/// indented by two spaces.
pub proof fn lemma_unified_diff_of_same(ls: Seq<Seq<char>>)
    ensures
        unified_from(ls, ls, 0, false) == marked_lines("  "@, ls),
{
    lemma_unified_context(ls, ls, 0, ls.len() as int);
    assert(ls.subrange(0, ls.len() as int) =~= ls);
}

/// When the texts agree on their first `i` lines and differ at line `i`,
/// the diff begins with those lines as context, then line `i` of the
/// first text marked `- ` and line `i` of the second marked `+ `.
pub proof fn lemma_unified_diff_context_then_change(ls1: Seq<Seq<char>>, ls2: Seq<Seq<char>>, i: int)
    requires
        0 <= i,
        i < ls1.len(),
        i < ls2.len(),
        ls1.take(i) == ls2.take(i),
        ls1[i] != ls2[i],
    ensures
        ({
            let head = marked_lines("  "@, ls1.take(i)) + "- "@ + ls1[i] + "\n"@ + "+ "@ + ls2[i] + "\n"@;
            let out = unified_from(ls1, ls2, 0, false);
            head.len() <= out.len() && out.subrange(0, head.len() as int) == head
        }),
{
    lemma_unified_context(ls1, ls2, 0, i);
    assert(ls1.subrange(0, i) =~= ls1.take(i));
    let head = marked_lines("  "@, ls1.take(i)) + "- "@ + ls1[i] + "\n"@ + "+ "@ + ls2[i] + "\n"@;
    let out = unified_from(ls1, ls2, 0, false);
    let rest = unified_from(ls1, ls2, i + 1, true);
    assert(out =~= head + rest);
    assert(out.subrange(0, head.len() as int) =~= head);
}

/// Whether `a` and `b` hold the same characters.
fn same_chars(a: &Vec<char>, b: &Vec<char>) -> (r: bool)
    ensures
        r == (a@ == b@),
{
    if a.len() != b.len() {
        return false;
    }
    let mut i: usize = 0;
    while i < a.len()
        invariant
            a@.len() == b@.len(),
            i <= a@.len(),
            forall|j: int| 0 <= j < i ==> a@[j] == b@[j],
        decreases a@.len() - i,
    {
        if a[i] != b[i] {
            return false;
        }
        i = i + 1;
    }
    assert(a@ =~= b@);
    true
}

/// Appends `mark`, the characters of `line`, and a newline.
fn push_marked_line(out: &mut String, mark: &str, line: &Vec<char>)
    ensures
        final(out)@ == old(out)@ + mark@ + line@ + "\n"@,
{
    let ghost o = out@;
    push_str(out, mark);
    push_range(out, line, 0, line.len());
    push_str(out, "\n");
    assert(line@.subrange(0, line@.len() as int) =~= line@);
    assert(out@ =~= o + mark@ + line@ + "\n"@);
}

/// Whether `line` holds an arrow `=>` and no opening brace.
pub open spec fn bare_arrow(line: Seq<char>) -> bool {
    contains_seq(line, "=>"@) && count_char(line, '{') == 0
}

/// Whether `line` stands alone: a `var`, `let` or `const` declaration
/// without `=`, or a line that ends (before trailing white space) in `,` or `;`.
pub open spec fn single_line_decl(line: Seq<char>) -> bool {
    let simple = (starts_after_ws(line, "var "@) || starts_after_ws(line, "let "@) || starts_after_ws(
        line,
        "const "@,
    )) && count_char(line, '=') == 0 && !contains_seq(line, "=>"@);
    simple || ends_before_ws(line, ',') || ends_before_ws(line, ';')
}

/// Where the definition that starts on line index `s` ends (exclusive),
/// scanning from line `i` with `depth` braces open: past the line whose
/// closing brace balances the first one opened; an arrow without braces on
/// the first line marks it as the end, though the scan goes on; `end` when
/// nothing marks one.
pub open spec fn original_end(lines: Seq<Seq<char>>, s: int, i: int, depth: int, opened: bool, end: int) -> int
    decreases lines.len() - i,
{
    if i < 0 || i >= lines.len() {
        end
    } else {
        let o = count_char(lines[i], '{');
        let f = opened || o > 0;
        let d = depth + o - count_char(lines[i], '}');
        let arrow = bare_arrow(lines[i]);
        if (f && d == 0) || (i == s && arrow) {
            if !arrow {
                i + 1
            } else {
                original_end(lines, s, i + 1, d, f, i + 1)
            }
        } else {
            original_end(lines, s, i + 1, d, f, end)
        }
    }
}

/// Whether that scan keeps its brace count within the machine's integers
/// and never closes more braces than it opened.
pub open spec fn original_scan_ok(lines: Seq<Seq<char>>, s: int, i: int, depth: int, opened: bool) -> bool
    decreases lines.len() - i,
{
    if i < 0 || i >= lines.len() {
        true
    } else {
        let o = count_char(lines[i], '{');
        let f = opened || o > 0;
        let d = depth + o - count_char(lines[i], '}');
        let arrow = bare_arrow(lines[i]);
        &&& depth + o <= usize::MAX
        &&& d >= 0
        &&& (((f && d == 0) || (i == s && arrow)) && !arrow || original_scan_ok(lines, s, i + 1, d, f))
    }
}

/// Lines `from..to` of `lines`, each after `prefix` and a space.
pub open spec fn prefixed_lines(lines: Seq<Seq<char>>, from: int, to: int, prefix: Seq<char>) -> Seq<char>
    decreases to - from,
{
    if from < 0 || from >= to || from >= lines.len() {
        seq![]
    } else {
        prefix + " "@ + lines[from] + "\n"@ + prefixed_lines(lines, from + 1, to, prefix)
    }
}

/// The source text shown for the definition on line `start_line` (counted
/// from one) of `source`: the line alone when it stands alone, else the
/// lines up to where the definition ends; nothing when there is no such line.
pub open spec fn original_function_text(source: Seq<char>, start_line: int, prefix: Seq<char>) -> Seq<char> {
    let lines = lines_of(source);
    if 0 < start_line <= lines.len() {
        let first = lines[start_line - 1];
        if single_line_decl(first) {
            prefix + " "@ + first + "\n"@
        } else {
            let end = original_end(lines, start_line - 1, start_line - 1, 0, false, start_line);
            prefixed_lines(lines, start_line - 1, if end < lines.len() { end } else { lines.len() as int }, prefix)
        }
    } else {
        seq![]
    }
}

impl StructuralDiff {
    /// The naive line diff of `text1` and `text2` that is shown for a
    /// modified declaration.
    pub fn print_unified_diff(&self, text1: &str, text2: &str) -> (r: String)
        ensures
            r@ == unified_from(lines_of(text1@), lines_of(text2@), 0, false),
    {
        let c1 = chars_of(text1);
        let c2 = chars_of(text2);
        let lines1 = split_lines(&c1);
        let lines2 = split_lines(&c2);
        let ghost ls1 = lines1@.map_values(|l: Vec<char>| l@);
        let ghost ls2 = lines2@.map_values(|l: Vec<char>| l@);
        let max_lines = if lines1.len() > lines2.len() {
            lines1.len()
        } else {
            lines2.len()
        };
        let mut out = String::new();
        let mut shown = false;
        let mut i: usize = 0;
        while i < max_lines
            invariant
                ls1 == lines1@.map_values(|l: Vec<char>| l@),
                ls2 == lines2@.map_values(|l: Vec<char>| l@),
                ls1 == lines_of(text1@),
                ls2 == lines_of(text2@),
                max_lines == if lines1@.len() > lines2@.len() { lines1@.len() } else { lines2@.len() },
                i <= max_lines,
                out@ + unified_from(ls1, ls2, i as int, shown) == unified_from(ls1, ls2, 0, false),
            decreases max_lines - i,
        {
            let ghost before = out@;
            let ghost was = shown;
            if i < lines1.len() && i < lines2.len() {
                assert(ls1[i as int] == lines1@[i as int]@);
                assert(ls2[i as int] == lines2@[i as int]@);
                if same_chars(&lines1[i], &lines2[i]) {
                    if !shown {
                        push_marked_line(&mut out, "  ", &lines1[i]);
                    }
                } else {
                    shown = true;
                    push_marked_line(&mut out, "- ", &lines1[i]);
                    push_marked_line(&mut out, "+ ", &lines2[i]);
                }
            } else if i < lines1.len() {
                assert(ls1[i as int] == lines1@[i as int]@);
                shown = true;
                push_marked_line(&mut out, "- ", &lines1[i]);
            } else {
                assert(ls2[i as int] == lines2@[i as int]@);
                shown = true;
                push_marked_line(&mut out, "+ ", &lines2[i]);
            }
            assert(out@ + unified_from(ls1, ls2, i + 1, shown) =~= before + unified_from(ls1, ls2, i as int, was));
            i = i + 1;
        }
        assert(out@ =~= out@ + unified_from(ls1, ls2, i as int, shown));
        out
    }
}

/// The index of the line, from line `k` on with `depth` braces open, whose
/// closing brace balances the first one opened, if any.
pub open spec fn closing_line(lines: Seq<Seq<char>>, k: int, depth: int, opened: bool) -> Option<int>
    decreases lines.len() - k,
{
    if k < 0 || k >= lines.len() {
        None
    } else {
        let o = count_char(lines[k], '{');
        let d = depth + o - count_char(lines[k], '}');
        if (opened || o > 0) && d == 0 {
            Some(k)
        } else {
            closing_line(lines, k + 1, d, opened || o > 0)
        }
    }
}

/// The canonical source shown for the function on line `start_line`
/// (counted from one): from that line through the line after the one that
/// balances its braces (or through the line after the start when none
/// does), within the text; nothing when there is no such line.
pub open spec fn canonical_snippet_text(source: Seq<char>, start_line: int, prefix: Seq<char>) -> Seq<char> {
    let lines = lines_of(source);
    if 0 < start_line <= lines.len() {
        let end_line = match closing_line(lines, start_line - 1, 0, false) {
            Some(i) => i + 1,
            None => start_line,
        };
        let last = if end_line < lines.len() - 1 { end_line } else { lines.len() - 1 };
        prefixed_lines(lines, start_line - 1, last + 1, prefix)
    } else {
        seq![]
    }
}

impl StructuralDiff {
    /// The canonical source lines shown for the function that starts on
    /// line `start_line`, each after `prefix` and a space.
    pub fn print_canonical_snippet(&self, source: &str, start_line: usize, prefix: &str) -> (r: String)
        requires
            start_line >= 1 ==> brace_scan_ok(lines_of(source@), start_line - 1, 0, false),
        ensures
            r@ == canonical_snippet_text(source@, start_line as int, prefix@),
    {
        let chars = chars_of(source);
        let lines = split_lines(&chars);
        let ghost ls = lines@.map_values(|l: Vec<char>| l@);
        assert(ls == lines_of(source@));
        let mut out = String::new();
        if start_line == 0 || start_line > lines.len() {
            return out;
        }
        let s0: usize = start_line - 1;
        let mut end_line: usize = start_line;
        let mut depth: usize = 0;
        let mut opened = false;
        let mut i: usize = s0;
        while i < lines.len()
            invariant_except_break
                brace_scan_ok(ls, i as int, depth as int, opened),
                closing_line(ls, i as int, depth as int, opened) == closing_line(ls, s0 as int, 0, false),
                end_line == start_line,
            invariant
                ls == lines@.map_values(|l: Vec<char>| l@),
                ls.len() == lines@.len(),
                s0 <= i <= lines@.len(),
                start_line == s0 + 1,
                start_line <= lines@.len(),
                start_line <= end_line <= lines@.len(),
            ensures
                end_line == match closing_line(ls, s0 as int, 0, false) {
                    Some(j) => j + 1,
                    None => start_line as int,
                },
            decreases lines@.len() - i,
        {
            let line = &lines[i];
            assert(ls[i as int] == line@);
            let o = count_char_in(line, '{');
            let c = count_char_in(line, '}');
            let f = opened || o > 0;
            let d = depth + o - c;
            if f && d == 0 {
                end_line = i + 1;
                break;
            }
            depth = d;
            opened = f;
            i = i + 1;
        }
        let last = if end_line < lines.len() - 1 {
            end_line
        } else {
            lines.len() - 1
        };
        let stop = last + 1;
        let mut k: usize = s0;
        while k < stop
            invariant
                ls == lines@.map_values(|l: Vec<char>| l@),
                s0 <= k <= stop,
                stop <= lines@.len(),
                out@ + prefixed_lines(ls, k as int, stop as int, prefix@) == prefixed_lines(
                    ls,
                    s0 as int,
                    stop as int,
                    prefix@,
                ),
            decreases stop - k,
        {
            let ghost before = out@;
            assert(ls[k as int] == lines@[k as int]@);
            push_str(&mut out, prefix);
            push_marked_line(&mut out, " ", &lines[k]);
            assert(out@ + prefixed_lines(ls, k + 1, stop as int, prefix@) =~= before + prefixed_lines(
                ls,
                k as int,
                stop as int,
                prefix@,
            ));
            k = k + 1;
        }
        assert(out@ =~= canonical_snippet_text(source@, start_line as int, prefix@));
        out
    }
}

/// Whether `print_original_function` can scan from line `start_line` of
/// `source`: its brace count stays within bounds.
pub fn original_scan_fits(source: &str, start_line: usize) -> (r: bool)
    ensures
        r == (0 < start_line <= lines_of(source@).len() && !single_line_decl(lines_of(source@)[start_line - 1])
            ==> original_scan_ok(lines_of(source@), start_line - 1, start_line - 1, 0, false)),
{
    let chars = chars_of(source);
    let lines = split_lines(&chars);
    let ghost ls = lines@.map_values(|l: Vec<char>| l@);
    if start_line == 0 || start_line > lines.len() {
        return true;
    }
    let s0: usize = start_line - 1;
    let first = &lines[s0];
    assert(ls[s0 as int] == first@);
    proof {
        reveal_strlit("var ");
        reveal_strlit("let ");
        reveal_strlit("const ");
        reveal_strlit("=>");
    }
    let arrow_mark = chars_of("=>");
    let simple = (starts_after_ws_exec(first, "var ") || starts_after_ws_exec(first, "let ")
        || starts_after_ws_exec(first, "const ")) && count_char_in(first, '=') == 0 && !contains_chars(
        first,
        &arrow_mark,
    );
    if simple || ends_before_ws_exec(first, ',') || ends_before_ws_exec(first, ';') {
        return true;
    }
    let mut depth: usize = 0;
    let mut opened = false;
    let mut i: usize = s0;
    while i < lines.len()
        invariant
            ls == lines@.map_values(|l: Vec<char>| l@),
            ls == lines_of(source@),
            arrow_mark@ == "=>"@,
            s0 <= i <= lines@.len(),
            s0 == start_line - 1,
            0 < start_line <= ls.len(),
            !single_line_decl(ls[s0 as int]),
            original_scan_ok(ls, s0 as int, i as int, depth as int, opened) == original_scan_ok(
                ls,
                s0 as int,
                s0 as int,
                0,
                false,
            ),
        decreases lines@.len() - i,
    {
        let line = &lines[i];
        assert(ls[i as int] == line@);
        let o = count_char_in(line, '{');
        let c = count_char_in(line, '}');
        if o > usize::MAX - depth || c > depth + o {
            assert(!original_scan_ok(ls, s0 as int, i as int, depth as int, opened));
            return false;
        }
        let f = opened || o > 0;
        let d = depth + o - c;
        let arrow = contains_chars(line, &arrow_mark) && o == 0;
        if ((f && d == 0) || (i == s0 && arrow)) && !arrow {
            assert(original_scan_ok(ls, s0 as int, i as int, depth as int, opened));
            return true;
        }
        depth = d;
        opened = f;
        i = i + 1;
    }
    true
}

/// Whether `extract_function_at_line` can scan from line `start_line` of
/// `source`: its brace count stays within bounds.
pub fn brace_scan_fits(source: &str, start_line: usize) -> (r: bool)
    ensures
        r == (start_line >= 1 ==> brace_scan_ok(lines_of(source@), start_line - 1, 0, false)),
{
    if start_line == 0 {
        return true;
    }
    let chars = chars_of(source);
    let lines = split_lines(&chars);
    let ghost ls = lines@.map_values(|l: Vec<char>| l@);
    let mut depth: usize = 0;
    let mut opened = false;
    let mut i: usize = start_line - 1;
    while i < lines.len()
        invariant
            ls == lines@.map_values(|l: Vec<char>| l@),
            ls == lines_of(source@),
            start_line >= 1,
            brace_scan_ok(ls, i as int, depth as int, opened) == brace_scan_ok(ls, start_line - 1, 0, false),
        decreases lines@.len() - i,
    {
        let line = &lines[i];
        assert(ls[i as int] == line@);
        let o = count_char_in(line, '{');
        let c = count_char_in(line, '}');
        if o > usize::MAX - depth || c > depth + o {
            assert(!brace_scan_ok(ls, i as int, depth as int, opened));
            return false;
        }
        let f = opened || o > 0;
        let d = depth + o - c;
        if f && d == 0 {
            assert(brace_scan_ok(ls, i as int, depth as int, opened));
            return true;
        }
        depth = d;
        opened = f;
        i = i + 1;
    }
    true
}

impl StructuralDiff {
    /// The source lines shown for the definition that starts on line
    /// `start_line`, each after `prefix` and a space.
    pub fn print_original_function(&self, source: &str, start_line: usize, prefix: &str) -> (r: String)
        requires
            0 < start_line <= lines_of(source@).len() && !single_line_decl(lines_of(source@)[start_line - 1])
                ==> original_scan_ok(lines_of(source@), start_line - 1, start_line - 1, 0, false),
        ensures
            r@ == original_function_text(source@, start_line as int, prefix@),
    {
        let chars = chars_of(source);
        let lines = split_lines(&chars);
        let ghost ls = lines@.map_values(|l: Vec<char>| l@);
        assert(ls == lines_of(source@));
        let mut out = String::new();
        if start_line == 0 || start_line > lines.len() {
            return out;
        }
        let s0: usize = start_line - 1;
        let first = &lines[s0];
        assert(ls[s0 as int] == first@);
        proof {
            reveal_strlit("var ");
            reveal_strlit("let ");
            reveal_strlit("const ");
            reveal_strlit("=>");
        }
        let arrow_mark = chars_of("=>");
        let simple = (starts_after_ws_exec(first, "var ") || starts_after_ws_exec(first, "let ")
            || starts_after_ws_exec(first, "const ")) && count_char_in(first, '=') == 0 && !contains_chars(
            first,
            &arrow_mark,
        );
        if simple || ends_before_ws_exec(first, ',') || ends_before_ws_exec(first, ';') {
            push_str(&mut out, prefix);
            push_marked_line(&mut out, " ", first);
            assert(out@ =~= prefix@ + " "@ + first@ + "\n"@);
            return out;
        }
        let mut end_line: usize = start_line;
        let mut depth: usize = 0;
        let mut opened = false;
        let mut i: usize = s0;
        while i < lines.len()
            invariant_except_break
                original_scan_ok(ls, s0 as int, i as int, depth as int, opened),
                original_end(ls, s0 as int, i as int, depth as int, opened, end_line as int) == original_end(
                    ls,
                    s0 as int,
                    s0 as int,
                    0,
                    false,
                    start_line as int,
                ),
            invariant
                ls == lines@.map_values(|l: Vec<char>| l@),
                ls.len() == lines@.len(),
                arrow_mark@ == "=>"@,
                s0 <= i <= lines@.len(),
                end_line <= lines@.len(),
            ensures
                end_line == original_end(ls, s0 as int, s0 as int, 0, false, start_line as int),
            decreases lines@.len() - i,
        {
            let line = &lines[i];
            assert(ls[i as int] == line@);
            let o = count_char_in(line, '{');
            let c = count_char_in(line, '}');
            let f = opened || o > 0;
            let d = depth + o - c;
            let arrow = contains_chars(line, &arrow_mark) && o == 0;
            if (f && d == 0) || (i == s0 && arrow) {
                end_line = i + 1;
                if !arrow {
                    break;
                }
            }
            depth = d;
            opened = f;
            i = i + 1;
        }
        let stop = if end_line < lines.len() {
            end_line
        } else {
            lines.len()
        };
        let mut k: usize = s0;
        let ghost o = out@;
        while k < stop
            invariant
                ls == lines@.map_values(|l: Vec<char>| l@),
                s0 <= k,
                stop <= lines@.len(),
                k <= stop || k == s0,
                out@ + prefixed_lines(ls, k as int, stop as int, prefix@) == prefixed_lines(
                    ls,
                    s0 as int,
                    stop as int,
                    prefix@,
                ),
            decreases stop - k,
        {
            let ghost before = out@;
            assert(ls[k as int] == lines@[k as int]@);
            push_str(&mut out, prefix);
            push_marked_line(&mut out, " ", &lines[k]);
            assert(out@ + prefixed_lines(ls, k + 1, stop as int, prefix@) =~= before + prefixed_lines(
                ls,
                k as int,
                stop as int,
                prefix@,
            ));
            k = k + 1;
        }
        assert(out@ =~= original_function_text(source@, start_line as int, prefix@));
        out
    }
}

impl StructuralDiff {
    /// The text of the lite view of `result`, naming the files `file1_name`
    /// and `file2_name`: definition names and line ranges only, no code.
    pub fn print_lite(&self, result: &DiffResult, file1_name: &str, file2_name: &str) -> (r: String)
        ensures
            r@ == lite_text(result.changes@, file1_name@, file2_name@),
    {
        let cs = &result.changes;
        let ghost f1 = file1_name@;
        let ghost f2 = file2_name@;
        let d = any_change(cs, ChangeType::Deletion);
        let a = any_change(cs, ChangeType::Addition);
        let m = any_change(cs, ChangeType::Modification);
        proof {
            reveal_strlit("=== Removed ===\n");
            reveal_strlit("=== Added ===\n");
            reveal_strlit("=== Modified ===\n");
            reveal_strlit("\n");
            reveal_strlit("-");
            reveal_strlit("+");
        }
        let mut out = String::new();
        let ghost s1 = if d {
            "=== Removed ===\n"@ + removed_lines(cs@, 0, f1)
        } else {
            Seq::<char>::empty()
        };
        if d {
            push_str(&mut out, "=== Removed ===\n");
            let ghost o = out@;
            let mut k: usize = 0;
            while k < cs.len()
                invariant
                    k <= cs@.len(),
                    f1 == file1_name@,
                    out@ + removed_lines(cs@, k as int, f1) == o + removed_lines(cs@, 0, f1),
                decreases cs@.len() - k,
            {
                let c = &cs[k];
                let ghost before = out@;
                if c.change_type == ChangeType::Deletion {
                    match &c.location1 {
                        Some(loc) => {
                            let name = listed_name_of(&c.description, "Removed ");
                            push_listed_line(&mut out, "-", &name, file1_name, loc);
                        },
                        None => {},
                    }
                }
                assert(out@ + removed_lines(cs@, k + 1, f1) =~= before + removed_lines(cs@, k as int, f1));
                k = k + 1;
            }
            assert(out@ =~= s1);
        } else {
            assert(out@ =~= s1);
        }
        let ghost s2 = if a {
            (if d {
                "\n"@
            } else {
                Seq::<char>::empty()
            }) + "=== Added ===\n"@ + added_lines(cs@, 0, f2)
        } else {
            Seq::<char>::empty()
        };
        if a {
            if d {
                push_str(&mut out, "\n");
            }
            push_str(&mut out, "=== Added ===\n");
            let ghost o = out@;
            let mut k: usize = 0;
            while k < cs.len()
                invariant
                    k <= cs@.len(),
                    f2 == file2_name@,
                    out@ + added_lines(cs@, k as int, f2) == o + added_lines(cs@, 0, f2),
                decreases cs@.len() - k,
            {
                let c = &cs[k];
                let ghost before = out@;
                if c.change_type == ChangeType::Addition {
                    match &c.location2 {
                        Some(loc) => {
                            let name = listed_name_of(&c.description, "Added ");
                            push_listed_line(&mut out, "+", &name, file2_name, loc);
                        },
                        None => {},
                    }
                }
                assert(out@ + added_lines(cs@, k + 1, f2) =~= before + added_lines(cs@, k as int, f2));
                k = k + 1;
            }
            assert(out@ =~= s1 + s2);
        } else {
            assert(out@ =~= s1 + s2);
        }
        let ghost s3 = if m {
            (if d || a {
                "\n"@
            } else {
                Seq::<char>::empty()
            }) + "=== Modified ===\n"@ + modified_lines(cs@, 0, true, f1, f2)
        } else {
            Seq::<char>::empty()
        };
        if m {
            if d || a {
                push_str(&mut out, "\n");
            }
            push_str(&mut out, "=== Modified ===\n");
            let ghost o = out@;
            let mut first = true;
            let mut k: usize = 0;
            while k < cs.len()
                invariant
                    k <= cs@.len(),
                    f1 == file1_name@,
                    f2 == file2_name@,
                    out@ + modified_lines(cs@, k as int, first, f1, f2) == o + modified_lines(cs@, 0, true, f1, f2),
                decreases cs@.len() - k,
            {
                let c = &cs[k];
                let ghost before = out@;
                let ghost was_first = first;
                if c.change_type == ChangeType::Modification {
                    if !first {
                        push_str(&mut out, "\n");
                    }
                    push_modified_entry(&mut out, c, file1_name, file2_name);
                    first = false;
                }
                assert(out@ + modified_lines(cs@, k + 1, first, f1, f2) =~= before + modified_lines(
                    cs@,
                    k as int,
                    was_first,
                    f1,
                    f2,
                ));
                k = k + 1;
            }
        }
        assert(out@ =~= lite_text(cs@, f1, f2));
        out
    }
}

impl Declaration {
    /// The parts of the declaration that a dump keeps: all but its node.
    pub fn to_serializable(&self) -> (r: SerializableDeclaration)
        ensures
            r.name@ == self.name@,
            r.kind == self.kind,
            r.line == self.line,
            r.signature@ == self.signature@,
            r.structural_hashes@ == self.structural_hashes@,
            r.size == self.size,
            r.minhash_signature@ == self.minhash_signature@,
            same_optional_fingerprint(r.fingerprint, self.fingerprint),
    {
        SerializableDeclaration {
            name: self.name.clone(),
            kind: self.kind,
            line: self.line,
            signature: self.signature.clone(),
            structural_hashes: self.structural_hashes.clone(),
            size: self.size,
            minhash_signature: self.minhash_signature.clone(),
            fingerprint: duplicate_optional(&self.fingerprint),
        }
    }
}

impl Declaration {
    /// The declaration with the line where its node ends, counted from one.
    pub fn to_data(&self, tree: &SyntaxTree) -> (r: DeclarationData)
        requires
            self.node < tree.nodes@.len(),
            tree.nodes@[self.node as int].end_row < usize::MAX,
        ensures
            r.name@ == self.name@,
            r.kind == self.kind,
            r.line == self.line,
            r.end_line == tree.nodes@[self.node as int].end_row + 1,
            r.signature@ == self.signature@,
            r.structural_hashes@ == self.structural_hashes@,
            r.size == self.size,
            r.minhash_signature@ == self.minhash_signature@,
            same_optional_fingerprint(r.fingerprint, self.fingerprint),
    {
        DeclarationData {
            name: self.name.clone(),
            kind: self.kind,
            line: self.line,
            end_line: tree.nodes[self.node].end_row + 1,
            signature: self.signature.clone(),
            structural_hashes: self.structural_hashes.clone(),
            size: self.size,
            minhash_signature: self.minhash_signature.clone(),
            fingerprint: duplicate_optional(&self.fingerprint),
        }
    }
}

impl SerializableDeclaration {
    /// A declaration read back from a dump; its node is a placeholder, the
    /// root.
    pub fn to_declaration(self) -> (r: Declaration)
        ensures
            r.name == self.name,
            r.kind == self.kind,
            r.node == 0,
            r.line == self.line,
            r.signature == self.signature,
            r.structural_hashes == self.structural_hashes,
            r.size == self.size,
            r.minhash_signature == self.minhash_signature,
            r.fingerprint == self.fingerprint,
    {
        Declaration {
            name: self.name,
            kind: self.kind,
            node: 0,
            line: self.line,
            signature: self.signature,
            structural_hashes: self.structural_hashes,
            size: self.size,
            minhash_signature: self.minhash_signature,
            fingerprint: self.fingerprint,
        }
    }
}

/// Lines joined with newlines between them.
pub open spec fn join_lines(ls: Seq<Seq<char>>) -> Seq<char>
    decreases ls.len(),
{
    if ls.len() == 0 {
        seq![]
    } else if ls.len() == 1 {
        ls[0]
    } else {
        join_lines(ls.drop_last()) + "\n"@ + ls.last()
    }
}

/// Whether scanning `lines` from line `k`, with `depth` braces open, adds and
/// removes braces without going below zero or past the machine's integers,
/// up to the line that closes the first brace opened.
pub open spec fn brace_scan_ok(lines: Seq<Seq<char>>, k: int, depth: int, opened: bool) -> bool
    decreases lines.len() - k,
{
    if k < 0 || k >= lines.len() {
        true
    } else {
        let o = count_char(lines[k], '{');
        let c = count_char(lines[k], '}');
        let d = depth + o - c;
        &&& depth + o <= usize::MAX
        &&& d >= 0
        &&& (((opened || o > 0) && d == 0) || brace_scan_ok(lines, k + 1, d, opened || o > 0))
    }
}

/// The end (exclusive) of the block of lines that starts at line `k`: past the
/// line where the braces opened since the start are all closed again, else the
/// last line.
pub open spec fn block_end(lines: Seq<Seq<char>>, k: int, depth: int, opened: bool) -> int
    decreases lines.len() - k,
{
    if k < 0 || k >= lines.len() {
        lines.len() as int
    } else {
        let o = count_char(lines[k], '{');
        let d = depth + o - count_char(lines[k], '}');
        if (opened || o > 0) && d == 0 {
            k + 1
        } else {
            block_end(lines, k + 1, d, opened || o > 0)
        }
    }
}

/// The source lines of the function that starts on line `start_line`
/// (counted from one): up to the line whose closing brace balances the
/// first one opened, or the end of the file.
pub open spec fn function_at_line(source: Seq<char>, start_line: int) -> Option<Seq<char>> {
    let lines = lines_of(source);
    if start_line == 0 || start_line > lines.len() {
        None
    } else {
        Some(join_lines(lines.subrange(start_line - 1, block_end(lines, start_line - 1, 0, false))))
    }
}

proof fn lemma_block_end_bounds(lines: Seq<Seq<char>>, k: int, depth: int, opened: bool)
    requires
        0 <= k < lines.len(),
    ensures
        k < block_end(lines, k, depth, opened) <= lines.len(),
    decreases lines.len() - k,
{
    let o = count_char(lines[k], '{');
    let d = depth + o - count_char(lines[k], '}');
    if !((opened || o > 0) && d == 0) {
        if k + 1 < lines.len() {
            lemma_block_end_bounds(lines, k + 1, d, opened || o > 0);
        } else {
            assert(block_end(lines, k + 1, d, opened || o > 0) == lines.len());
        }
    }
}

impl StructuralDiff {
    /// The source text of the function that starts on `start_line` (counted
    /// from one); `None` when there is no such line.
    pub fn extract_function_at_line(&self, source: &str, start_line: usize) -> (r: Option<String>)
        requires
            start_line >= 1 ==> brace_scan_ok(lines_of(source@), start_line - 1, 0, false),
        ensures
            match r {
                Some(s) => function_at_line(source@, start_line as int) == Some(s@),
                None => function_at_line(source@, start_line as int) is None,
            },
    {
        let chars = chars_of(source);
        let lines = split_lines(&chars);
        let ghost ls = lines@.map_values(|l: Vec<char>| l@);
        assert(ls == lines_of(source@));
        if start_line == 0 || start_line > lines.len() {
            return None;
        }
        let first: usize = start_line - 1;
        let ghost s0 = first;
        let mut result = String::new();
        let mut depth: usize = 0;
        let mut opened = false;
        let mut k: usize = start_line - 1;
        proof {
            lemma_block_end_bounds(ls, s0 as int, 0, false);
            assert(ls.subrange(s0 as int, s0 as int) =~= Seq::<Seq<char>>::empty());
        }
        loop
            invariant_except_break
                k == s0 ==> result@ == Seq::<char>::empty(),
                k > s0 ==> result@ == join_lines(ls.subrange(s0 as int, k as int)),
            invariant
                ls == lines@.map_values(|l: Vec<char>| l@),
                s0 == first,
                s0 <= k < ls.len(),
                ls.len() == lines@.len(),
                k < block_end(ls, k as int, depth as int, opened) <= ls.len(),
                block_end(ls, k as int, depth as int, opened) == block_end(ls, s0 as int, 0, false),
                brace_scan_ok(ls, k as int, depth as int, opened),
            ensures
                result@ == join_lines(ls.subrange(s0 as int, block_end(ls, s0 as int, 0, false))),
            decreases ls.len() - k,
        {
            let line = &lines[k];
            let ghost prev = result@;
            if k > first {
                push_char(&mut result, '\n');
            }
            let ghost before = result@;
            let mut j: usize = 0;
            while j < line.len()
                invariant
                    j <= line@.len(),
                    result@ == before + line@.take(j as int),
                decreases line@.len() - j,
            {
                push_char(&mut result, line[j]);
                proof {
                    assert(line@.take(j + 1) =~= line@.take(j as int).push(line@[j as int]));
                }
                j = j + 1;
            }
            proof {
                assert(line@.take(line@.len() as int) =~= line@);
                assert(ls[k as int] == line@);
                let sub = ls.subrange(s0 as int, k + 1);
                if k > s0 {
                    reveal_strlit("\n");
                    assert(sub.drop_last() =~= ls.subrange(s0 as int, k as int));
                    assert(sub.last() == line@);
                    assert(sub.len() > 1);
                    assert(before == prev + "\n"@);
                    assert(result@ =~= join_lines(sub.drop_last()) + "\n"@ + sub.last());
                } else {
                    assert(sub =~= seq![line@]);
                }
                assert(result@ == join_lines(sub));
            }
            let o = count_char_in(line, '{');
            let c = count_char_in(line, '}');
            let d = depth + o - c;
            let now_open = opened || o > 0;
            assert(k < lines.len());
            if (now_open && d == 0) || k + 1 == lines.len() {
                break;
            }
            depth = d;
            opened = now_open;
            k = k + 1;
            proof {
                if k < ls.len() {
                    lemma_block_end_bounds(ls, k as int, depth as int, opened);
                }
            }
        }
        Some(result)
    }
}

impl StructuralDiff {
    /// `s` with newlines marked `↵`, cut to `max_len` bytes plus `...` when longer.
    pub fn truncate_with_ellipsis(s: &str, max_len: usize) -> (r: String)
        ensures
            r@ == truncated(s@, max_len as nat),
    {
        let v = chars_of(s);
        let mut cleaned: Vec<char> = Vec::new();
        let mut i: usize = 0;
        while i < v.len()
            invariant
                i <= v@.len(),
                v@ == s@,
                cleaned@ == mark_newlines(s@).take(i as int),
            decreases v@.len() - i,
        {
            let c = if v[i] == '\n' {
                '↵'
            } else {
                v[i]
            };
            cleaned.push(c);
            assert(cleaned@ =~= mark_newlines(s@).take(i + 1));
            i = i + 1;
        }
        assert(cleaned@ =~= mark_newlines(s@));
        let ghost c = cleaned@;
        let mut bytes: usize = 0;
        let mut k: usize = 0;
        while k < cleaned.len() && bytes <= max_len && char_utf8_width(cleaned[k]) <= max_len - bytes
            invariant
                c == cleaned@,
                k <= c.len(),
                bytes == utf8_len(c.take(k as int)),
                bytes <= max_len,
                longest_fit(c, max_len as nat, 0) == longest_fit(c, max_len as nat, k as nat),
            decreases c.len() - k,
        {
            assert(c.take(k + 1).drop_last() =~= c.take(k as int));
            bytes = bytes + char_utf8_width(cleaned[k]);
            k = k + 1;
        }
        proof {
            if k < c.len() {
                assert(c.take(k + 1).drop_last() =~= c.take(k as int));
                assert(!(utf8_len(c.take(k + 1)) <= max_len));
            }
        }
        if k == cleaned.len() {
            assert(c.take(k as int) =~= c);
            string_of_chars(&cleaned)
        } else {
            proof {
                lemma_utf8_len_prefix(c, k + 1, c.len() as int);
                assert(c.take(c.len() as int) =~= c);
            }
            let mut out = string_of_chars(&chars_to(&cleaned, k));
            push_str(&mut out, "...");
            out
        }
    }

    /// The category of change `c` (see `category_of`).
    pub fn change_category(c: &Change, with_text: bool) -> (r: ChangeCategory)
        ensures
            r == category_of(*c, with_text),
    {
        match c.change_type {
            ChangeType::Addition => ChangeCategory::Added,
            ChangeType::Deletion => ChangeCategory::Removed,
            ChangeType::Modification => {
                if str_contains(c.description.as_str(), "structure changed") || (with_text && str_contains(
                    c.description.as_str(),
                    "text constant changes",
                )) {
                    ChangeCategory::Restructured
                } else if str_contains(c.description.as_str(), "matched with") {
                    ChangeCategory::Renamed
                } else {
                    ChangeCategory::Hidden
                }
            },
            ChangeType::Reorder => ChangeCategory::Hidden,
        }
    }

    /// The positions of the changes of `result` in category `cat`, in order.
    pub fn changes_in(&self, result: &DiffResult, cat: ChangeCategory, with_text: bool) -> (r: Vec<usize>)
        ensures
            r@ == positions_in(result.changes@, cat, with_text),
    {
        let cs = &result.changes;
        let mut r: Vec<usize> = Vec::new();
        let mut i: usize = 0;
        while i < cs.len()
            invariant
                i <= cs@.len(),
                r@ == positions_in(cs@.take(i as int), cat, with_text),
            decreases cs@.len() - i,
        {
            assert(cs@.take(i + 1).drop_last() =~= cs@.take(i as int));
            assert(cs@.take(i + 1).last() == cs@[i as int]);
            if Self::change_category(&cs[i], with_text) == cat {
                r.push(i);
            }
            i = i + 1;
        }
        assert(cs@.take(i as int) =~= cs@);
        r
    }

    /// How a rename is listed: the part of the change's path before its
    /// first `->` with every `global.` removed, and the part after it up to
    /// any next `->`; nothing when the path has no `->`.
    pub fn rename_parts(c: &Change) -> (r: Option<(String, String)>)
        ensures
            match second_segment(c.structural_path@) {
                Some(to) => r matches Some(p) && p.0@ == replace_all(before_arrow(c.structural_path@), "global."@, ""@)
                    && p.1@ == to,
                None => r is None,
            },
    {
        let path = chars_of(c.structural_path.as_str());
        let n = path.len();
        match find_first(&path, "->") {
            Some(j) => {
                proof {
                    reveal_strlit("->");
                    reveal_strlit("global.");
                    assert(occurs_at(path@, "->"@, j as int));
                    assert("->"@.len() == 2);
                    assert(j + 2 <= n);
                }
                let from = replace_chars(&before_arrow_exec(&path), "global.", "");
                let to = before_arrow_exec(&chars_from(&path, j + 2));
                Some((string_of_chars(&from), string_of_chars(&to)))
            },
            None => None,
        }
    }

    /// The numbers of added, removed and changed declarations in `result`.
    pub fn calculate_line_statistics(&self, result: &DiffResult) -> (r: (usize, usize, usize))
        ensures
            (r.0 as nat, r.1 as nat, r.2 as nat) == line_statistics(result.changes@),
    {
        let cs = &result.changes;
        let mut added: usize = 0;
        let mut removed: usize = 0;
        let mut total: usize = 0;
        let mut i: usize = 0;
        while i < cs.len()
            invariant
                i <= cs@.len(),
                (added as nat, removed as nat, total as nat) == line_statistics(cs@.take(i as int)),
                added <= total <= i,
                removed <= total,
            decreases cs@.len() - i,
        {
            assert(cs@.take(i + 1).drop_last() =~= cs@.take(i as int));
            let c = &cs[i];
            match c.change_type {
                ChangeType::Addition => {
                    added = added + 1;
                    total = total + 1;
                },
                ChangeType::Deletion => {
                    removed = removed + 1;
                    total = total + 1;
                },
                ChangeType::Modification => {
                    if str_contains(c.description.as_str(), "structure changed") || str_contains(
                        c.description.as_str(),
                        "text constant changes",
                    ) {
                        total = total + 1;
                    }
                },
                ChangeType::Reorder => {},
            }
            i = i + 1;
        }
        assert(cs@.take(i as int) =~= cs@);
        (added, removed, total)
    }

    /// The renames (old name to new name) that the matched declarations of
    /// `result` record in their paths `global.<old>-><new>`.
    pub fn generate_rename_mapping(&self, result: &DiffResult) -> (r: Vec<(String, String)>)
        ensures
            keys_unique(r@),
            forall|k: Seq<char>| #[trigger] pair_lookup(r@, k) == crate::mapping::map_get(renames_of(result.changes@), k),
    {
        let cs = &result.changes;
        let mut r: Vec<(String, String)> = Vec::new();
        let mut i: usize = 0;
        while i < cs.len()
            invariant
                i <= cs@.len(),
                keys_unique(r@),
                forall|k: Seq<char>|
                    #[trigger] pair_lookup(r@, k) == crate::mapping::map_get(renames_of(cs@.take(i as int)), k),
            decreases cs@.len() - i,
        {
            assert(cs@.take(i + 1).drop_last() =~= cs@.take(i as int));
            assert(cs@.take(i + 1).last() == cs@[i as int]);
            let c = &cs[i];
            let ghost before = r@;
            let mut inserted = false;
            if c.change_type == ChangeType::Modification && str_contains(c.description.as_str(), "matched with")
                && crate::text::str_starts_with(c.structural_path.as_str(), "global.") {
                let path = chars_of(c.structural_path.as_str());
                proof {
                    reveal_strlit("global.");
                }
                let rest = chars_from(&path, 7);
                match find_first(&rest, "->") {
                    Some(j) => {
                        proof {
                            reveal_strlit("->");
                            assert(occurs_at(rest@, "->"@, j as int));
                            assert("->"@.len() == 2);
                        }
                        let _rl = rest.len();
                        let from = string_of_chars(&chars_to(&rest, j));
                        let to = string_of_chars(&chars_from(&rest, j + 2));
                        insert_pair(&mut r, from, to);
                        inserted = true;
                    },
                    None => {},
                }
            }
            proof {
                assert forall|k: Seq<char>| #[trigger] pair_lookup(r@, k) == crate::mapping::map_get(
                    renames_of(cs@.take(i + 1)),
                    k,
                ) by {
                    if inserted {
                        let rn = change_rename(cs@[i as int]).unwrap();
                        if k != rn.0 {
                            assert(pair_lookup(before, k) == crate::mapping::map_get(renames_of(cs@.take(i as int)), k));
                        }
                    } else {
                        assert(pair_lookup(before, k) == crate::mapping::map_get(renames_of(cs@.take(i as int)), k));
                    }
                }
            }
            i = i + 1;
        }
        assert(cs@.take(i as int) =~= cs@);
        r
    }

    /// When both renaming tables are set, annotates each change's
    /// description: a name of the first program found in the table as
    /// `'semantic' (name)`, then likewise for the second program.
    pub fn apply_mappings_to_result(&self, result: &mut DiffResult)
        requires
            self.wf(),
        ensures
            final(result).identical == old(result).identical,
            final(result).matched_declarations == old(result).matched_declarations,
            final(result).total_declarations1 == old(result).total_declarations1,
            final(result).total_declarations2 == old(result).total_declarations2,
            final(result).changes@.len() == old(result).changes@.len(),
            forall|i: int|
                0 <= i < old(result).changes@.len() ==> {
                    let o = old(result).changes@[i];
                    let f = #[trigger] final(result).changes@[i];
                    &&& f.change_type == o.change_type
                    &&& f.location1 == o.location1
                    &&& f.location2 == o.location2
                    &&& f.structural_path == o.structural_path
                    &&& f.string_diff == o.string_diff
                    &&& f.description@ == match (self.mappings1_view(), self.mappings2_view()) {
                        (Some(m1), Some(m2)) => annotated_description(o, m1, m2),
                        _ => o.description@,
                    }
                },
    {
        match (&self.mappings1, &self.mappings2) {
            (Some(map1), Some(map2)) => {
                let mut changes: Vec<Change> = Vec::new();
                std::mem::swap(&mut changes, &mut result.changes);
                let ghost olds = changes@;
                let n = changes.len();
                let mut out: Vec<Change> = Vec::new();
                let mut i: usize = 0;
                while i < n
                    invariant
                        n == olds.len(),
                        i <= n,
                        olds == old(result).changes@,
                        changes@ == olds.skip(i as int),
                        out@.len() == i,
                        keys_unique(map1@),
                        keys_unique(map2@),
                        self.mappings1_view() == Some(map1@),
                        self.mappings2_view() == Some(map2@),
                        forall|a: int|
                            0 <= a < i ==> {
                                let o = olds[a];
                                let f = #[trigger] out@[a];
                                &&& f.change_type == o.change_type
                                &&& f.location1 == o.location1
                                &&& f.location2 == o.location2
                                &&& f.structural_path == o.structural_path
                                &&& f.string_diff == o.string_diff
                                &&& f.description@ == annotated_description(o, map1@, map2@)
                            },
                    decreases n - i,
                {
                    assert(changes@[0] == olds[i as int]);
                    let desc = self.annotated(&changes[0], map1, map2);
                    let c = changes.remove(0);
                    assert(changes@ =~= olds.skip(i + 1));
                    let Change { change_type, location1, location2, description: _, structural_path, string_diff } = c;
                    let ghost before = out@;
                    out.push(Change { change_type, location1, location2, description: desc, structural_path, string_diff });
                    proof {
                        assert forall|a: int| 0 <= a < i + 1 implies {
                            let o = olds[a];
                            let f = #[trigger] out@[a];
                            &&& f.change_type == o.change_type
                            &&& f.location1 == o.location1
                            &&& f.location2 == o.location2
                            &&& f.structural_path == o.structural_path
                            &&& f.string_diff == o.string_diff
                            &&& f.description@ == annotated_description(o, map1@, map2@)
                        } by {
                            if a < i {
                                assert(out@[a] == before[a]);
                            }
                        }
                    }
                    i = i + 1;
                }
                result.changes = out;
            },
            _ => {},
        }
    }

    /// The description of `c` annotated by the two renaming tables.
    fn annotated(&self, c: &Change, map1: &Vec<(String, String)>, map2: &Vec<(String, String)>) -> (r: String)
        requires
            keys_unique(map1@),
            keys_unique(map2@),
        ensures
            r@ == annotated_description(*c, map1@, map2@),
    {
        let path = chars_of(c.structural_path.as_str());
        proof {
            reveal_strlit("global.");
            reveal_strlit("->");
        }
        let mut d1 = c.description.clone();
        if c.location1.is_some() && crate::text::str_starts_with(c.structural_path.as_str(), "global.") {
            let canonical = before_arrow_exec(&chars_from(&path, 7));
            let key = string_of_chars(&canonical);
            match get_pair(map1, key.as_str()) {
                Some(sem) => {
                    d1 = annotate_exec(&c.description, &canonical, &sem);
                },
                None => {},
            }
        }
        if c.location2.is_some() {
            match find_first(&path, "->") {
                Some(j) => {
                    assert(occurs_at(path@, "->"@, j as int));
                    assert("->"@.len() == 2);
                    let _pl = path.len();
                    let name = before_arrow_exec(&chars_from(&path, j + 2));
                    let key = string_of_chars(&name);
                    match get_pair(map2, key.as_str()) {
                        Some(sem) => {
                            let d2 = annotate_exec(&d1, &name, &sem);
                            return d2;
                        },
                        None => {},
                    }
                },
                None => {},
            }
        }
        d1
    }
}



/// Whether the subtrees at `n1` of `t1` and at `n2` of `t2` have the same
/// structure down to depth `fuel`: the same kinds, the same text at
/// literals, any text at identifiers, and children of the same structure.
pub open spec fn same_structure(t1: SyntaxTree, n1: int, t2: SyntaxTree, n2: int, fuel: nat) -> bool
    decreases fuel,
{
    &&& fuel > 0
    &&& 0 <= n1 < t1.nodes@.len()
    &&& 0 <= n2 < t2.nodes@.len()
    &&& t1.kind(n1) == t2.kind(n2)
    &&& if is_literal_kind(t1.kind(n1)) {
        t1.text(n1) == t2.text(n2)
    } else if t1.kind(n1) == "identifier"@ {
        true
    } else {
        &&& t1.nodes@[n1].children@.len() == t2.nodes@[n2].children@.len()
        &&& forall|i: int|
            0 <= i < t1.nodes@[n1].children@.len() ==> {
                let c1 = #[trigger] t1.nodes@[n1].children@[i] as int;
                let c2 = t2.nodes@[n2].children@[i] as int;
                &&& n1 < c1 < t1.nodes@.len()
                &&& n2 < c2 < t2.nodes@.len()
                &&& same_structure(t1, c1, t2, c2, (fuel - 1) as nat)
            }
    }
}

/// Structural hashes ignore identifier names: subtrees of the same
/// structure hash alike, whatever names they use.
pub proof fn lemma_hash_ignores_identifiers(t1: SyntaxTree, n1: int, t2: SyntaxTree, n2: int, fuel: nat)
    requires
        same_structure(t1, n1, t2, n2, fuel),
    ensures
        struct_hash(t1, n1) == struct_hash(t2, n2),
    decreases fuel,
{
    let k = t1.kind(n1);
    if !is_literal_kind(k) && k != "identifier"@ {
        lemma_child_hashes_same(t1, n1, t2, n2, fuel, 0);
    }
    assert(hash_writes(t1, n1) == hash_writes(t2, n2));
}

proof fn lemma_child_hashes_same(t1: SyntaxTree, n1: int, t2: SyntaxTree, n2: int, fuel: nat, k: int)
    requires
        same_structure(t1, n1, t2, n2, fuel),
        !is_literal_kind(t1.kind(n1)),
        t1.kind(n1) != "identifier"@,
        0 <= k,
    ensures
        child_hashes(t1, n1, k) == child_hashes(t2, n2, k),
    decreases fuel, t1.nodes@[n1].children@.len() - k,
{
    if k < t1.nodes@[n1].children@.len() {
        let c1 = t1.nodes@[n1].children@[k] as int;
        let c2 = t2.nodes@[n2].children@[k] as int;
        assert(same_structure(t1, c1, t2, c2, (fuel - 1) as nat));
        lemma_hash_ignores_identifiers(t1, c1, t2, c2, (fuel - 1) as nat);
        lemma_child_hashes_same(t1, n1, t2, n2, fuel, k + 1);
    }
}


/// Inserting into a sequence whose elements are all at least `b` an element
/// at least `b` keeps every element at least `b`.
proof fn lemma_insert_sorted_lower(s: Seq<u64>, x: u64, b: u64)
    requires
        b <= x,
        forall|j: int| 0 <= j < s.len() ==> b <= #[trigger] s[j],
    ensures
        forall|i: int| 0 <= i < insert_sorted(s, x).len() ==> b <= #[trigger] insert_sorted(s, x)[i],
    decreases s.len(),
{
    if s.len() > 0 && x > s[0] {
        let rest = s.drop_first();
        lemma_insert_sorted_lower(rest, x, b);
        let r = insert_sorted(s, x);
        assert forall|i: int| 0 <= i < r.len() implies b <= #[trigger] r[i] by {
            if i > 0 {
                assert(r[i] == insert_sorted(rest, x)[i - 1]);
            }
        }
    }
}

/// Whether `s` is in ascending order.
pub open spec fn ascending(s: Seq<u64>) -> bool {
    forall|i: int, j: int| 0 <= i < j < s.len() ==> #[trigger] s[i] <= #[trigger] s[j]
}

/// Inserting into an ascending sequence keeps it ascending and adds the element.
proof fn lemma_insert_sorted_props(s: Seq<u64>, x: u64)
    requires
        ascending(s),
    ensures
        ascending(insert_sorted(s, x)),
        insert_sorted(s, x).to_multiset() == s.to_multiset().insert(x),
    decreases s.len(),
{
    broadcast use vstd::seq_lib::group_to_multiset_ensures;
    broadcast use vstd::seq_lib::lemma_multiset_commutative;
    let r = insert_sorted(s, x);
    assert(Seq::<u64>::empty().to_multiset() =~= Multiset::<u64>::empty());
    if s.len() == 0 {
        assert(r =~= Seq::<u64>::empty().push(x));
    } else if x <= s[0] {
        assert(r == seq![x] + s);
        assert(seq![x] =~= Seq::<u64>::empty().push(x));
        assert forall|i: int, j: int| 0 <= i < j < r.len() implies #[trigger] r[i] <= #[trigger] r[j] by {
            if i > 0 {
                assert(s[i - 1] <= s[j - 1]);
            } else if j > 1 {
                assert(s[0] <= s[j - 1]);
            }
        }
        assert((seq![x] + s).to_multiset() =~= seq![x].to_multiset().add(s.to_multiset()));
    } else {
        let rest = s.drop_first();
        assert forall|i: int, j: int| 0 <= i < j < rest.len() implies #[trigger] rest[i] <= #[trigger] rest[j] by {
            assert(s[i + 1] <= s[j + 1]);
        }
        lemma_insert_sorted_props(rest, x);
        assert forall|j: int| 0 <= j < rest.len() implies s[0] <= #[trigger] rest[j] by {
            assert(s[0] <= s[j + 1]);
        }
        lemma_insert_sorted_lower(rest, x, s[0]);
        let ir = insert_sorted(rest, x);
        assert(r == seq![s[0]] + ir);
        assert forall|i: int, j: int| 0 <= i < j < r.len() implies #[trigger] r[i] <= #[trigger] r[j] by {
            if i > 0 {
                assert(ir[i - 1] <= ir[j - 1]);
            } else {
                assert(r[j] == ir[j - 1]);
            }
        }
        assert(seq![s[0]] =~= Seq::<u64>::empty().push(s[0]));
        assert((seq![s[0]] + ir).to_multiset() =~= seq![s[0]].to_multiset().add(ir.to_multiset()));
        assert(s =~= seq![s[0]] + rest);
        assert((seq![s[0]] + rest).to_multiset() =~= seq![s[0]].to_multiset().add(rest.to_multiset()));
        assert(r.to_multiset() =~= s.to_multiset().insert(x));
    }
}

/// Sorting gives an ascending sequence with the same elements.
proof fn lemma_sort_props(s: Seq<u64>)
    ensures
        ascending(sort_u64(s)),
        sort_u64(s).to_multiset() == s.to_multiset(),
    decreases s.len(),
{
    broadcast use vstd::seq_lib::group_to_multiset_ensures;
    if s.len() == 0 {
        assert(sort_u64(s) =~= s);
    } else {
        lemma_sort_props(s.drop_last());
        lemma_insert_sorted_props(sort_u64(s.drop_last()), s.last());
        assert(s.drop_last().push(s.last()) =~= s);
    }
}

/// The children of a node of kind `object`, `object_pattern`,
/// `named_imports` or `export_clause` are hashed whatever their order: two
/// such nodes of one kind whose child hashes are the same up to order have
/// the same structural hash.
pub proof fn lemma_child_order_ignored(t1: SyntaxTree, n1: int, t2: SyntaxTree, n2: int)
    requires
        0 <= n1 < t1.nodes@.len(),
        0 <= n2 < t2.nodes@.len(),
        t1.kind(n1) == t2.kind(n2),
        t1.kind(n1) == "object"@ || t1.kind(n1) == "object_pattern"@ || t1.kind(n1) == "named_imports"@
            || t1.kind(n1) == "export_clause"@,
        child_hashes(t1, n1, 0).to_multiset() == child_hashes(t2, n2, 0).to_multiset(),
    ensures
        struct_hash(t1, n1) == struct_hash(t2, n2),
{
    let k = t1.kind(n1);
    reveal_strlit("object");
    reveal_strlit("object_pattern");
    reveal_strlit("named_imports");
    reveal_strlit("export_clause");
    reveal_strlit("string");
    reveal_strlit("number");
    reveal_strlit("true");
    reveal_strlit("false");
    reveal_strlit("null");
    reveal_strlit("undefined");
    reveal_strlit("regex");
    reveal_strlit("template_string");
    reveal_strlit("identifier");
    assert(k[0] == 'o' || k[0] == 'n' || k[0] == 'e');
    assert(k.len() == 6 ==> k[1] == 'b');
    assert(!is_literal_kind(k));
    assert(k != "identifier"@);
    let h1 = child_hashes(t1, n1, 0);
    let h2 = child_hashes(t2, n2, 0);
    lemma_sort_props(h1);
    lemma_sort_props(h2);
    let leq = |a: u64, b: u64| a <= b;
    assert(total_ordering(leq));
    assert(sorted_by(sort_u64(h1), leq));
    assert(sorted_by(sort_u64(h2), leq));
    vstd::seq_lib::lemma_sorted_unique(sort_u64(h1), sort_u64(h2), leq);
    assert(hash_writes(t1, n1) == hash_writes(t2, n2));
}

} // verus!
