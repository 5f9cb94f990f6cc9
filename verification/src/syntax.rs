//! The library's own syntax tree: an arena of nodes in preorder, each with
//! its grammar kind, the field name it fills in its parent, its character
//! range in the source, its row/column, its parent and its children.
use vstd::prelude::*;
use crate::text::{str_eq, chars_of, matches_at, string_of_range, utf8_width, char_utf8_width};

verus! {

/// One node as the parser reports it, in preorder: `depth` is the distance
/// from the root, offsets are in bytes of the UTF-8 source.
#[derive(Debug, Clone)]
pub struct RawNode {
    pub kind: String,
    pub field: Option<String>,
    pub depth: usize,
    pub start_byte: usize,
    pub end_byte: usize,
    pub start_row: usize,
    pub start_col: usize,
    pub end_row: usize,
    pub end_col: usize,
}

/// A node of the tree. `start`/`end` are character offsets into the source.
#[derive(Debug, Clone)]
pub struct SyntaxNode {
    pub kind: String,
    pub field: Option<String>,
    pub start: usize,
    pub end: usize,
    pub start_row: usize,
    pub start_col: usize,
    pub end_row: usize,
    pub end_col: usize,
    pub parent: Option<usize>,
    pub children: Vec<usize>,
}

/// A syntax tree over `source`; node 0 is the root.
#[derive(Debug, Clone)]
pub struct SyntaxTree {
    pub source: Vec<char>,
    pub nodes: Vec<SyntaxNode>,
}

/// Whether `field` is the field name `name`.
pub open spec fn field_is(field: Option<String>, name: Seq<char>) -> bool {
    match field {
        Some(f) => f@ == name,
        None => false,
    }
}

/// The byte offset of character `k` of `chars` in its UTF-8 encoding.
pub open spec fn byte_offset(chars: Seq<char>, k: int) -> nat
    decreases k,
{
    if k <= 0 || chars.len() == 0 {
        0
    } else if k > chars.len() {
        byte_offset(chars, chars.len() as int)
    } else {
        byte_offset(chars, k - 1) + utf8_width(chars[k - 1])
    }
}

/// Whether byte offset `b` falls on the boundary before character `k`.
pub open spec fn is_boundary(chars: Seq<char>, b: int, k: int) -> bool {
    0 <= k <= chars.len() && byte_offset(chars, k) == b
}

/// Whether `p` is the parent that the preorder depths assign to record `i`:
/// the nearest earlier record one level up.
pub open spec fn depth_parent(raw: Seq<RawNode>, i: int, p: int) -> bool {
    &&& 0 <= p < i < raw.len()
    &&& raw[p].depth + 1 == raw[i].depth
    &&& forall|j: int| p < j < i ==> (#[trigger] raw[j]).depth >= raw[i].depth
}

/// Whether one record's byte range is ordered and falls on character boundaries.
pub open spec fn raw_range_ok(chars: Seq<char>, r: RawNode) -> bool {
    &&& r.start_byte <= r.end_byte
    &&& exists|k: int| is_boundary(chars, r.start_byte as int, k)
    &&& exists|k: int| is_boundary(chars, r.end_byte as int, k)
}

/// Whether the parser's records describe a tree over `chars`: one root at
/// depth 0, each later record at most one level below its predecessor, every
/// byte range ordered and on character boundaries, and the whole text's byte
/// length representable.
pub open spec fn raw_consistent(chars: Seq<char>, raw: Seq<RawNode>) -> bool {
    &&& byte_offset(chars, chars.len() as int) <= usize::MAX
    &&& raw.len() > 0
    &&& raw[0].depth == 0
    &&& forall|i: int| 0 < i < raw.len() ==> 1 <= #[trigger] raw[i].depth <= raw[i - 1].depth + 1
    &&& forall|i: int| 0 <= i < raw.len() ==> raw_range_ok(chars, #[trigger] raw[i])
}

/// A parser record by its plain values: kind, field, depth, start and end
/// byte, start row and column, end row and column.
pub type RawView = (Seq<char>, Option<Seq<char>>, usize, usize, usize, usize, usize, usize, usize);

pub open spec fn opt_string_view(s: Option<String>) -> Option<Seq<char>> {
    match s {
        Some(x) => Some(x@),
        None => None,
    }
}

pub open spec fn raw_view(r: RawNode) -> RawView {
    (r.kind@, opt_string_view(r.field), r.depth, r.start_byte, r.end_byte, r.start_row, r.start_col, r.end_row, r.end_col)
}

pub open spec fn raw_views(rs: Seq<RawNode>) -> Seq<RawView> {
    rs.map_values(|r: RawNode| raw_view(r))
}

/// Whether one record's byte range is ordered and falls on character boundaries.
pub open spec fn record_range_ok(chars: Seq<char>, r: RawView) -> bool {
    &&& r.3 <= r.4
    &&& exists|k: int| is_boundary(chars, r.3 as int, k)
    &&& exists|k: int| is_boundary(chars, r.4 as int, k)
}

/// Whether records `rs` describe a tree over `chars`: one root at depth 0,
/// each later record at most one level below its predecessor, every byte
/// range ordered and on character boundaries, and the whole text's byte
/// length representable.
pub open spec fn records_consistent(chars: Seq<char>, rs: Seq<RawView>) -> bool {
    &&& byte_offset(chars, chars.len() as int) <= usize::MAX
    &&& rs.len() > 0
    &&& rs[0].2 == 0
    &&& forall|i: int| 0 < i < rs.len() ==> 1 <= #[trigger] rs[i].2 <= rs[i - 1].2 + 1
    &&& forall|i: int| 0 <= i < rs.len() ==> record_range_ok(chars, #[trigger] rs[i])
}

/// Whether record `p` is the parent that the depths assign to record `i`:
/// the nearest earlier record one level up.
pub open spec fn record_parent(rs: Seq<RawView>, i: int, p: int) -> bool {
    &&& 0 <= p < i < rs.len()
    &&& rs[p].2 + 1 == rs[i].2
    &&& forall|j: int| p < j < i ==> (#[trigger] rs[j]).2 >= rs[i].2
}

/// Whether `t` is the tree over `chars` that the records `rs` describe: one
/// node per record, in the same order, with the record's kind, field and
/// positions, its character range at the record's byte range, and the parent
/// that the depths assign.
pub open spec fn tree_from_records(t: SyntaxTree, chars: Seq<char>, rs: Seq<RawView>) -> bool {
    &&& t.wf()
    &&& t.source@ == chars
    &&& t.nodes@.len() == rs.len()
    &&& forall|i: int|
        0 <= i < rs.len() ==> {
            &&& (#[trigger] t.nodes@[i]).kind@ == rs[i].0
            &&& opt_string_view(t.nodes@[i].field) == rs[i].1
            &&& t.nodes@[i].start_row == rs[i].5
            &&& t.nodes@[i].start_col == rs[i].6
            &&& t.nodes@[i].end_row == rs[i].7
            &&& t.nodes@[i].end_col == rs[i].8
            &&& is_boundary(chars, rs[i].3 as int, t.nodes@[i].start as int)
            &&& is_boundary(chars, rs[i].4 as int, t.nodes@[i].end as int)
        }
    &&& forall|i: int| 0 < i < rs.len() ==> record_parent(rs, i, (#[trigger] t.nodes@[i]).parent->0 as int)
}

/// The records' consistency and the tree built from them read only their
/// plain values.
pub proof fn lemma_records_of_raw(chars: Seq<char>, raw: Seq<RawNode>, t: SyntaxTree)
    ensures
        raw_consistent(chars, raw) == records_consistent(chars, raw_views(raw)),
        ({
            &&& t.wf()
            &&& t.source@ == chars
            &&& t.nodes@.len() == raw.len()
            &&& forall|i: int|
                0 <= i < raw.len() ==> {
                    &&& (#[trigger] t.nodes@[i]).kind == raw[i].kind
                    &&& t.nodes@[i].field == raw[i].field
                    &&& t.nodes@[i].start_row == raw[i].start_row
                    &&& t.nodes@[i].start_col == raw[i].start_col
                    &&& t.nodes@[i].end_row == raw[i].end_row
                    &&& t.nodes@[i].end_col == raw[i].end_col
                    &&& is_boundary(chars, raw[i].start_byte as int, t.nodes@[i].start as int)
                    &&& is_boundary(chars, raw[i].end_byte as int, t.nodes@[i].end as int)
                }
            &&& forall|i: int| 0 < i < raw.len() ==> depth_parent(raw, i, (#[trigger] t.nodes@[i]).parent->0 as int)
        }) ==> tree_from_records(t, chars, raw_views(raw)),
{
    let rs = raw_views(raw);
    assert forall|i: int| 0 <= i < raw.len() implies #[trigger] rs[i] == raw_view(raw[i]) by {}
    if raw_consistent(chars, raw) {
        assert forall|i: int| 0 < i < rs.len() implies 1 <= #[trigger] rs[i].2 <= rs[i - 1].2 + 1 by {
            assert(rs[i] == raw_view(raw[i]));
            assert(rs[i - 1] == raw_view(raw[i - 1]));
            assert(1 <= raw[i].depth <= raw[i - 1].depth + 1);
        }
        assert forall|i: int| 0 <= i < rs.len() implies record_range_ok(chars, #[trigger] rs[i]) by {
            assert(raw_range_ok(chars, raw[i]));
        }
    }
    if records_consistent(chars, rs) {
        assert forall|i: int| 0 < i < raw.len() implies 1 <= #[trigger] raw[i].depth <= raw[i - 1].depth + 1 by {
            assert(1 <= rs[i].2 <= rs[i - 1].2 + 1);
        }
        assert forall|i: int| 0 <= i < raw.len() implies raw_range_ok(chars, #[trigger] raw[i]) by {
            assert(record_range_ok(chars, rs[i]));
        }
    }
    if t.nodes@.len() == raw.len() && forall|i: int| 0 < i < raw.len() ==> depth_parent(raw, i, (#[trigger] t.nodes@[i]).parent->0 as int) {
        assert forall|i: int| 0 < i < rs.len() implies record_parent(rs, i, (#[trigger] t.nodes@[i]).parent->0 as int) by {
            let p = t.nodes@[i].parent->0 as int;
            assert(depth_parent(raw, i, p));
            assert forall|j: int| p < j < i implies (#[trigger] rs[j]).2 >= rs[i].2 by {
                assert(raw[j].depth >= raw[i].depth);
            }
        }
    }
}

impl SyntaxTree {
    pub open spec fn len(&self) -> nat {
        self.nodes@.len()
    }

    pub open spec fn node(&self, i: int) -> SyntaxNode {
        self.nodes@[i]
    }

    pub open spec fn kind(&self, i: int) -> Seq<char> {
        self.nodes@[i].kind@
    }

    pub open spec fn children(&self, i: int) -> Seq<usize> {
        self.nodes@[i].children@
    }

    /// The source text that node `i` spans.
    pub open spec fn text(&self, i: int) -> Seq<char> {
        self.source@.subrange(self.nodes@[i].start as int, self.nodes@[i].end as int)
    }

    /// The structural invariant of the arena.
    pub open spec fn wf(&self) -> bool {
        &&& self.nodes@.len() > 0
        &&& self.nodes@[0].parent is None
        &&& forall|i: int|
            0 < i < self.nodes@.len() ==> ((#[trigger] self.nodes@[i]).parent matches Some(p) && p < i)
        &&& forall|i: int|
            0 <= i < self.nodes@.len() ==> (#[trigger] self.nodes@[i]).start <= self.nodes@[i].end
                <= self.source@.len()
        &&& forall|i: int, k: int|
            0 <= i < self.nodes@.len() && 0 <= k < self.nodes@[i].children@.len() ==> {
                let c = #[trigger] self.nodes@[i].children@[k];
                &&& i < c < self.nodes@.len()
                &&& self.nodes@[c as int].parent == Some(i as usize)
            }
        &&& forall|i: int, k1: int, k2: int|
            0 <= i < self.nodes@.len() && 0 <= k1 < k2 < self.nodes@[i].children@.len()
                ==> #[trigger] self.nodes@[i].children@[k1] < #[trigger] self.nodes@[i].children@[k2]
        &&& forall|c: int|
            0 < c < self.nodes@.len() ==> self.nodes@[(#[trigger] self.nodes@[c]).parent->0 as int].children@.contains(
                c as usize,
            )
    }

    /// The first child of `i` that fills field `name`, if any.
    pub open spec fn child_by_field(&self, i: int, name: Seq<char>) -> Option<usize> {
        first_with_field(self, self.nodes@[i].children@, name)
    }

    /// The `k`-th child of `i`, if any.
    pub open spec fn child_at(&self, i: int, k: int) -> Option<usize> {
        if 0 <= k < self.nodes@[i].children@.len() {
            Some(self.nodes@[i].children@[k])
        } else {
            None
        }
    }

    pub fn node_count(&self) -> (n: usize)
        ensures
            n == self.nodes@.len(),
    {
        self.nodes.len()
    }

    /// Whether node `i` has kind `k`.
    pub fn kind_is(&self, i: usize, k: &str) -> (r: bool)
        requires
            i < self.nodes@.len(),
        ensures
            r == (self.nodes@[i as int].kind@ == k@),
    {
        str_eq(self.nodes[i].kind.as_str(), k)
    }

    /// The kind of node `i`.
    pub fn kind_str(&self, i: usize) -> (r: &str)
        requires
            i < self.nodes@.len(),
        ensures
            r@ == self.nodes@[i as int].kind@,
    {
        self.nodes[i].kind.as_str()
    }

    /// The parent of node `i`.
    pub fn parent_of(&self, i: usize) -> (r: Option<usize>)
        requires
            self.wf(),
            i < self.nodes@.len(),
        ensures
            r == self.nodes@[i as int].parent,
            r matches Some(p) ==> p < i,
    {
        self.nodes[i].parent
    }

    /// The number of children of node `i`.
    pub fn child_count(&self, i: usize) -> (r: usize)
        requires
            i < self.nodes@.len(),
        ensures
            r == self.nodes@[i as int].children@.len(),
    {
        self.nodes[i].children.len()
    }

    /// The `k`-th child of node `i`.
    pub fn child(&self, i: usize, k: usize) -> (r: Option<usize>)
        requires
            self.wf(),
            i < self.nodes@.len(),
        ensures
            r == self.child_at(i as int, k as int),
            r matches Some(c) ==> i < c < self.nodes@.len(),
    {
        if k < self.nodes[i].children.len() {
            Some(self.nodes[i].children[k])
        } else {
            None
        }
    }

    /// The first child of node `i` that fills field `name`.
    pub fn child_by_field_name(&self, i: usize, name: &str) -> (r: Option<usize>)
        requires
            self.wf(),
            i < self.nodes@.len(),
        ensures
            r == self.child_by_field(i as int, name@),
            r matches Some(c) ==> i < c < self.nodes@.len() && self.nodes@[c as int].parent == Some(i),
    {
        let n = self.nodes[i].children.len();
        let mut k: usize = 0;
        assert(self.nodes@[i as int].children@.skip(0) =~= self.nodes@[i as int].children@);
        while k < n
            invariant
                self.wf(),
                i < self.nodes@.len(),
                n == self.nodes@[i as int].children@.len(),
                k <= n,
                first_with_field(self, self.nodes@[i as int].children@, name@) == first_with_field(
                    self,
                    self.nodes@[i as int].children@.skip(k as int),
                    name@,
                ),
            decreases n - k,
        {
            let c = self.nodes[i].children[k];
            let ghost rest = self.nodes@[i as int].children@.skip(k as int);
            assert(rest[0] == c);
            assert(rest.drop_first() =~= self.nodes@[i as int].children@.skip(k + 1));
            let is_field = match &self.nodes[c].field {
                Some(f) => str_eq(f.as_str(), name),
                None => false,
            };
            if is_field {
                return Some(c);
            }
            k = k + 1;
        }
        assert(self.nodes@[i as int].children@.skip(n as int).len() == 0);
        None
    }

    /// The source text of node `i` as a string.
    pub fn text_of(&self, i: usize) -> (s: String)
        requires
            self.wf(),
            i < self.nodes@.len(),
        ensures
            s@ == self.text(i as int),
    {
        string_of_range(&self.source, self.nodes[i].start, self.nodes[i].end)
    }

    /// Builds the tree from the parser's preorder records over `source`.
    /// Returns `None` exactly when the records do not describe a tree.
    pub fn from_preorder(source: &str, raw: Vec<RawNode>) -> (r: Option<SyntaxTree>)
        ensures
            r is Some <==> raw_consistent(source@, raw@),
            r matches Some(t) ==> {
                &&& t.wf()
                &&& t.source@ == source@
                &&& t.nodes@.len() == raw@.len()
                &&& forall|i: int|
                    0 <= i < raw@.len() ==> {
                        &&& (#[trigger] t.nodes@[i]).kind == raw@[i].kind
                        &&& t.nodes@[i].field == raw@[i].field
                        &&& t.nodes@[i].start_row == raw@[i].start_row
                        &&& t.nodes@[i].start_col == raw@[i].start_col
                        &&& t.nodes@[i].end_row == raw@[i].end_row
                        &&& t.nodes@[i].end_col == raw@[i].end_col
                        &&& is_boundary(source@, raw@[i].start_byte as int, t.nodes@[i].start as int)
                        &&& is_boundary(source@, raw@[i].end_byte as int, t.nodes@[i].end as int)
                    }
                &&& forall|i: int|
                    0 < i < raw@.len() ==> depth_parent(
                        raw@,
                        i,
                        (#[trigger] t.nodes@[i]).parent->0 as int,
                    )
            },
    {
        let chars = chars_of(source);
        let offsets = match byte_offsets(&chars) {
            Some(o) => o,
            None => {
                return None;
            },
        };
        let n = raw.len();
        if n == 0 || raw[0].depth != 0 {
            return None;
        }
        let mut nodes: Vec<SyntaxNode> = Vec::new();
        let mut stack: Vec<usize> = Vec::new();
        let mut i: usize = 0;
        proof {
            reveal(stack_ok);
            reveal(arena_prefix_ok);
        }
        while i < n
            invariant
                n == raw@.len(),
                n > 0,
                raw@[0].depth == 0,
                chars@ == source@,
                byte_offset(chars@, chars@.len() as int) <= usize::MAX,
                offsets_ok(chars@, offsets@),
                i <= n,
                // records seen so far are consistent
                forall|j: int| 0 < j < i ==> 1 <= #[trigger] raw@[j].depth <= raw@[j - 1].depth + 1,
                forall|j: int| 0 <= j < i ==> raw_range_ok(chars@, #[trigger] raw@[j]),
                // the stack holds the ancestors of the last record
                stack_ok(raw@, stack@, i as int),
                // the nodes built so far
                arena_prefix_ok(raw@, chars@, nodes@, i as int),
                nodes@.len() == i,
            decreases n - i,
        {
            let depth = raw[i].depth;
            let ghost old_stack = stack@;
            let mut parent: Option<usize> = None;
            proof {
                lemma_stack_len(raw@, stack@, i as int);
            }
            if i > 0 {
                if depth == 0 || depth > stack.len() {
                    assert(!(1 <= raw@[i as int].depth <= raw@[i - 1].depth + 1));
                    return None;
                }
                parent = Some(stack[depth - 1]);
                proof {
                    lemma_stack_parent(raw@, stack@, i as int);
                }
                stack.truncate(depth);
            }
            let (start, end) = match char_range(&chars, &offsets, raw[i].start_byte, raw[i].end_byte) {
                Some(r) => r,
                None => {
                    assert(!raw_range_ok(chars@, raw@[i as int]));
                    return None;
                },
            };
            let field = match &raw[i].field {
                Some(f) => Some(f.clone()),
                None => None,
            };
            let node = SyntaxNode {
                kind: raw[i].kind.clone(),
                field,
                start,
                end,
                start_row: raw[i].start_row,
                start_col: raw[i].start_col,
                end_row: raw[i].end_row,
                end_col: raw[i].end_col,
                parent,
                children: Vec::new(),
            };
            let ghost before = nodes@;
            nodes.push(node);
            match parent {
                Some(p) => {
                    nodes[p].children.push(i);
                },
                None => {},
            }
            stack.push(i);
            proof {
                lemma_extend_arena(raw@, chars@, before, nodes@, node, parent, i as int);
                lemma_stack_step(raw@, old_stack, stack@, i as int);
            }
            i = i + 1;
        }
        let t = SyntaxTree { source: chars, nodes };
        proof {
            lemma_arena_complete(raw@, t);
        }
        Some(t)
    }
}

/// The ancestor stack while records `0..i` have been read.
#[verifier::opaque]
pub open spec fn stack_ok(raw: Seq<RawNode>, stack: Seq<usize>, i: int) -> bool {
    &&& i > 0 ==> stack.len() == raw[i - 1].depth + 1
    &&& i > 0 ==> stack[stack.len() - 1] == i - 1
    &&& i == 0 ==> stack.len() == 0
    &&& forall|d: int|
        0 <= d < stack.len() ==> {
            &&& (#[trigger] stack[d]) < i
            &&& raw[stack[d] as int].depth == d
            &&& forall|j: int| stack[d] < j < i ==> (#[trigger] raw[j]).depth > d
        }
}

proof fn lemma_stack_step(raw: Seq<RawNode>, old_stack: Seq<usize>, new_stack: Seq<usize>, i: int)
    requires
        0 <= i < raw.len(),
        i < usize::MAX,
        raw[0].depth == 0,
        stack_ok(raw, old_stack, i),
        i == 0 ==> new_stack == old_stack.push(0),
        i > 0 ==> 1 <= raw[i].depth <= old_stack.len(),
        i > 0 ==> new_stack == old_stack.take(raw[i].depth as int).push(i as usize),
    ensures
        stack_ok(raw, new_stack, i + 1),
        i > 0 ==> depth_parent(raw, i, old_stack[raw[i].depth - 1] as int),
{
    reveal(stack_ok);
    if i > 0 {
        let d = raw[i].depth as int;
        assert forall|e: int| 0 <= e < new_stack.len() implies {
            &&& (#[trigger] new_stack[e]) < i + 1
            &&& raw[new_stack[e] as int].depth == e
            &&& forall|j: int| new_stack[e] < j < i + 1 ==> (#[trigger] raw[j]).depth > e
        } by {
            if e < d {
                assert(new_stack[e] == old_stack[e]);
            } else {
                assert(new_stack[e] == i);
            }
        }
    }
}

proof fn lemma_stack_parent(raw: Seq<RawNode>, stack: Seq<usize>, i: int)
    requires
        0 < i < raw.len(),
        stack_ok(raw, stack, i),
        1 <= raw[i].depth <= stack.len(),
    ensures
        depth_parent(raw, i, stack[raw[i].depth - 1] as int),
{
    reveal(stack_ok);
}

proof fn lemma_stack_len(raw: Seq<RawNode>, stack: Seq<usize>, i: int)
    requires
        stack_ok(raw, stack, i),
    ensures
        i > 0 ==> stack.len() == raw[i - 1].depth + 1,
        i == 0 ==> stack.len() == 0,
{
    reveal(stack_ok);
}

proof fn lemma_arena_complete(raw: Seq<RawNode>, t: SyntaxTree)
    requires
        raw.len() > 0,
        arena_prefix_ok(raw, t.source@, t.nodes@, raw.len() as int),
    ensures
        t.wf(),
        forall|i: int|
            0 <= i < raw.len() ==> {
                &&& (#[trigger] t.nodes@[i]).kind == raw[i].kind
                &&& t.nodes@[i].field == raw[i].field
                &&& t.nodes@[i].start_row == raw[i].start_row
                &&& t.nodes@[i].start_col == raw[i].start_col
                &&& t.nodes@[i].end_row == raw[i].end_row
                &&& t.nodes@[i].end_col == raw[i].end_col
                &&& is_boundary(t.source@, raw[i].start_byte as int, t.nodes@[i].start as int)
                &&& is_boundary(t.source@, raw[i].end_byte as int, t.nodes@[i].end as int)
            },
        forall|i: int| 0 < i < raw.len() ==> depth_parent(raw, i, (#[trigger] t.nodes@[i]).parent->0 as int),
{
    reveal(arena_prefix_ok);
    assert forall|i: int| 0 < i < raw.len() implies depth_parent(raw, i, (#[trigger] t.nodes@[i]).parent->0 as int) by {
        assert(t.nodes@[i].parent matches Some(p) && depth_parent(raw, i, p as int));
    }
}

/// The arena invariants that hold of the first `i` nodes.
#[verifier::opaque]
pub open spec fn arena_prefix_ok(raw: Seq<RawNode>, chars: Seq<char>, nodes: Seq<SyntaxNode>, i: int) -> bool {
    &&& nodes.len() == i
    &&& i > 0 ==> nodes[0].parent is None
    &&& forall|j: int|
        0 < j < i ==> ((#[trigger] nodes[j]).parent matches Some(p) && depth_parent(raw, j, p as int))
    &&& forall|j: int|
        0 <= j < i ==> {
            &&& (#[trigger] nodes[j]).kind == raw[j].kind
            &&& nodes[j].field == raw[j].field
            &&& nodes[j].start_row == raw[j].start_row
            &&& nodes[j].start_col == raw[j].start_col
            &&& nodes[j].end_row == raw[j].end_row
            &&& nodes[j].end_col == raw[j].end_col
            &&& is_boundary(chars, raw[j].start_byte as int, nodes[j].start as int)
            &&& is_boundary(chars, raw[j].end_byte as int, nodes[j].end as int)
            &&& nodes[j].start <= nodes[j].end <= chars.len()
        }
    &&& forall|q: int, k: int|
        0 <= q < i && 0 <= k < nodes[q].children@.len() ==> {
            let c = #[trigger] nodes[q].children@[k];
            &&& q < c < i
            &&& nodes[c as int].parent == Some(q as usize)
        }
    &&& forall|q: int, k1: int, k2: int|
        0 <= q < i && 0 <= k1 < k2 < nodes[q].children@.len() ==> #[trigger] nodes[q].children@[k1]
            < #[trigger] nodes[q].children@[k2]
    &&& forall|c: int|
        0 < c < i ==> nodes[(#[trigger] nodes[c]).parent->0 as int].children@.contains(c as usize)
}

proof fn lemma_extend_arena(
    raw: Seq<RawNode>,
    chars: Seq<char>,
    before: Seq<SyntaxNode>,
    after: Seq<SyntaxNode>,
    node: SyntaxNode,
    parent: Option<usize>,
    i: int,
)
    requires
        0 <= i < raw.len(),
        i < usize::MAX,
        arena_prefix_ok(raw, chars, before, i),
        node.kind == raw[i].kind,
        node.field == raw[i].field,
        node.start_row == raw[i].start_row,
        node.start_col == raw[i].start_col,
        node.end_row == raw[i].end_row,
        node.end_col == raw[i].end_col,
        is_boundary(chars, raw[i].start_byte as int, node.start as int),
        is_boundary(chars, raw[i].end_byte as int, node.end as int),
        node.start <= node.end <= chars.len(),
        node.parent == parent,
        node.children@.len() == 0,
        i == 0 <==> parent is None,
        parent matches Some(p) ==> depth_parent(raw, i, p as int),
        parent is None ==> after == before.push(node),
        parent matches Some(p) ==> {
            &&& after.len() == i + 1
            &&& after[i] == node
            &&& after[p as int].children@ == before[p as int].children@.push(i as usize)
            &&& after[p as int].kind == before[p as int].kind
            &&& after[p as int].field == before[p as int].field
            &&& after[p as int].start == before[p as int].start
            &&& after[p as int].end == before[p as int].end
            &&& after[p as int].start_row == before[p as int].start_row
            &&& after[p as int].start_col == before[p as int].start_col
            &&& after[p as int].end_row == before[p as int].end_row
            &&& after[p as int].end_col == before[p as int].end_col
            &&& after[p as int].parent == before[p as int].parent
            &&& forall|q: int| 0 <= q < i && q != p ==> after[q] == before[q]
        },
    ensures
        arena_prefix_ok(raw, chars, after, i + 1),
{
    reveal(arena_prefix_ok);
    match parent {
        None => {
            assert forall|q: int, k: int|
                0 <= q < i + 1 && 0 <= k < after[q].children@.len() implies {
                    let c = #[trigger] after[q].children@[k];
                    &&& q < c < i + 1
                    &&& after[c as int].parent == Some(q as usize)
                } by {
                assert(q < i);
                assert(after[q] == before[q]);
            }
        },
        Some(p) => {
            assert(after[i] == node);
            assert forall|j: int| 0 <= j < i + 1 implies #[trigger] after[j].parent == (if j == i { parent } else { before[j].parent }) by {}
            assert forall|q: int, k: int|
                0 <= q < i + 1 && 0 <= k < after[q].children@.len() implies {
                    let c = #[trigger] after[q].children@[k];
                    &&& q < c < i + 1
                    &&& after[c as int].parent == Some(q as usize)
                } by {
                if q == p {
                    if k < before[q].children@.len() {
                        let c = before[q].children@[k];
                        assert(after[q].children@[k] == c);
                        assert(q < c < i);
                        assert(after[c as int] == before[c as int]);
                    } else {
                        assert(after[q].children@[k] == i);
                        assert(after[i].parent == Some(p));
                    }
                } else if q < i {
                    assert(after[q] == before[q]);
                    let c = before[q].children@[k];
                    if c != p {
                        assert(after[c as int] == before[c as int]);
                    }
                }
            }
            assert forall|q: int, k1: int, k2: int|
                0 <= q < i + 1 && 0 <= k1 < k2 < after[q].children@.len() implies #[trigger] after[q].children@[k1]
                    < #[trigger] after[q].children@[k2] by {
                if q == p {
                    if k2 < before[q].children@.len() {
                        assert(after[q].children@[k1] == before[q].children@[k1]);
                        assert(after[q].children@[k2] == before[q].children@[k2]);
                    } else {
                        assert(after[q].children@[k1] == before[q].children@[k1]);
                        assert(before[q].children@[k1] < i);
                        assert(after[q].children@[k2] == i);
                    }
                } else if q < i {
                    assert(after[q] == before[q]);
                }
            }
            assert forall|c: int| 0 < c < i + 1 implies after[(#[trigger] after[c]).parent->0 as int].children@.contains(
                c as usize,
            ) by {
                if c == i {
                    assert(after[p as int].children@.last() == i);
                } else {
                    let q = before[c].parent->0 as int;
                    assert(after[c] == before[c] || c == p);
                    assert(before[q].children@.contains(c as usize));
                    if q == p {
                        let k = choose|k: int| 0 <= k < before[q].children@.len() && before[q].children@[k] == c;
                        assert(after[q].children@[k] == c);
                    } else {
                        assert(after[q] == before[q]);
                    }
                }
            }
        },
    }
}

/// Whether `o` lists the byte offset of every character boundary of `chars`.
pub open spec fn offsets_ok(chars: Seq<char>, o: Seq<usize>) -> bool {
    &&& o.len() == chars.len() + 1
    &&& forall|k: int| 0 <= k <= chars.len() ==> o[k] == byte_offset(chars, k)
}

/// Converts a byte range to a character range.
fn char_range(chars: &Vec<char>, o: &Vec<usize>, sb: usize, eb: usize) -> (r: Option<(usize, usize)>)
    requires
        offsets_ok(chars@, o@),
    ensures
        r is Some <==> (sb <= eb && (exists|k: int| is_boundary(chars@, sb as int, k)) && (exists|k: int|
            is_boundary(chars@, eb as int, k))),
        r matches Some((s, e)) ==> {
            &&& is_boundary(chars@, sb as int, s as int)
            &&& is_boundary(chars@, eb as int, e as int)
            &&& s <= e <= chars@.len()
        },
{
    proof {
        lemma_byte_offset_strict(chars@);
        lemma_byte_offset_monotone(chars@);
    }
    if sb > eb {
        return None;
    }
    let s = match find_boundary(o, sb) {
        Some(k) => k,
        None => {
            assert forall|k: int| !is_boundary(chars@, sb as int, k) by {
                if 0 <= k <= chars@.len() {
                    assert(o@[k] == byte_offset(chars@, k));
                }
            }
            return None;
        },
    };
    let e = match find_boundary(o, eb) {
        Some(k) => k,
        None => {
            assert forall|k: int| !is_boundary(chars@, eb as int, k) by {
                if 0 <= k <= chars@.len() {
                    assert(o@[k] == byte_offset(chars@, k));
                }
            }
            return None;
        },
    };
    assert(is_boundary(chars@, sb as int, s as int));
    assert(is_boundary(chars@, eb as int, e as int));
    Some((s, e))
}

/// `o[k]` is the byte offset of character `k`, for `k` up to and including the end.
fn byte_offsets(chars: &Vec<char>) -> (r: Option<Vec<usize>>)
    ensures
        r is Some <==> byte_offset(chars@, chars@.len() as int) <= usize::MAX,
        r matches Some(o) ==> {
            &&& o@.len() == chars@.len() + 1
            &&& forall|k: int| 0 <= k <= chars@.len() ==> o@[k] == byte_offset(chars@, k)
        },
{
    proof {
        lemma_byte_offset_monotone(chars@);
    }
    let mut o: Vec<usize> = Vec::new();
    o.push(0);
    let mut total: usize = 0;
    let mut k: usize = 0;
    let n = chars.len();
    while k < n
        invariant
            n == chars@.len(),
            k <= n,
            total == byte_offset(chars@, k as int),
            o@.len() == k + 1,
            forall|j: int| 0 <= j <= k ==> o@[j] == byte_offset(chars@, j),
            forall|j: int, m: int| 0 <= j <= m <= chars@.len() ==> byte_offset(chars@, j) <= byte_offset(chars@, m),
        decreases n - k,
    {
        let w = char_utf8_width(chars[k]);
        assert(byte_offset(chars@, k + 1) == byte_offset(chars@, k as int) + utf8_width(chars@[k as int]));
        if total > usize::MAX - w {
            assert(byte_offset(chars@, k + 1) <= byte_offset(chars@, n as int));
            return None;
        }
        total = total + w;
        k = k + 1;
        o.push(total);
    }
    Some(o)
}

/// Finds `k` with `o[k] == b` in a non-decreasing vector.
fn find_boundary(o: &Vec<usize>, b: usize) -> (r: Option<usize>)
    requires
        forall|j: int, k: int| 0 <= j <= k < o@.len() ==> o@[j] <= o@[k],
    ensures
        r matches Some(k) ==> k < o@.len() && o@[k as int] == b,
        r is None ==> forall|k: int| 0 <= k < o@.len() ==> o@[k] != b,
{
    let mut lo: usize = 0;
    let mut hi: usize = o.len();
    while lo < hi
        invariant
            0 <= lo <= hi <= o@.len(),
            forall|j: int, k: int| 0 <= j <= k < o@.len() ==> o@[j] <= o@[k],
            forall|k: int| 0 <= k < lo ==> o@[k] < b,
            forall|k: int| hi <= k < o@.len() ==> o@[k] >= b,
        decreases hi - lo,
    {
        let mid = lo + (hi - lo) / 2;
        if o[mid] < b {
            lo = mid + 1;
        } else {
            hi = mid;
        }
    }
    if lo < o.len() && o[lo] == b {
        Some(lo)
    } else {
        proof {
            assert forall|k: int| 0 <= k < o@.len() implies o@[k] != b by {
                if k >= lo && lo < o@.len() {
                    assert(o@[lo as int] > b);
                    assert(o@[lo as int] <= o@[k]);
                }
            }
        }
        None
    }
}

proof fn lemma_byte_offset_step(chars: Seq<char>, k: int)
    requires
        0 <= k < chars.len(),
    ensures
        byte_offset(chars, k) < byte_offset(chars, k + 1),
{
}

proof fn lemma_byte_offset_monotone(chars: Seq<char>)
    ensures
        forall|j: int, k: int| 0 <= j <= k <= chars.len() ==> byte_offset(chars, j) <= byte_offset(chars, k),
{
    lemma_byte_offset_strict(chars);
}

proof fn lemma_byte_offset_strict(chars: Seq<char>)
    ensures
        forall|j: int, k: int| 0 <= j < k <= chars.len() ==> byte_offset(chars, j) < byte_offset(chars, k),
{
    assert forall|j: int, k: int| 0 <= j < k <= chars.len() implies byte_offset(chars, j) < byte_offset(chars, k) by {
        lemma_byte_offset_strict_pair(chars, j, k);
    }
}

proof fn lemma_byte_offset_strict_pair(chars: Seq<char>, j: int, k: int)
    requires
        0 <= j < k <= chars.len(),
    ensures
        byte_offset(chars, j) < byte_offset(chars, k),
    decreases k - j,
{
    lemma_byte_offset_step(chars, k - 1);
    if j < k - 1 {
        lemma_byte_offset_strict_pair(chars, j, k - 1);
    }
}

/// The first element of `cs` whose node fills field `name`.
pub open spec fn first_with_field(t: &SyntaxTree, cs: Seq<usize>, name: Seq<char>) -> Option<usize>
    decreases cs.len(),
{
    if cs.len() == 0 {
        None
    } else if field_is(t.nodes@[cs[0] as int].field, name) {
        Some(cs[0])
    } else {
        first_with_field(t, cs.drop_first(), name)
    }
}

} // verus!
