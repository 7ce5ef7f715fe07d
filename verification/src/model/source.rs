use vstd::prelude::*;

use super::{Comment, Construct, ExprInvocation, Ident, NodeId};

verus! {

/// Position data for AST nodes, kept apart from the AST itself.
#[derive(Debug, Clone)]
pub struct SourceMap {
    /// `node_ranges[i]` is the `(start, end)` byte range of `NodeId(i)` (end-exclusive).
    pub node_ranges: Vec<(usize, usize)>,
    /// Byte offset of the operator token for expression nodes that have one.
    pub op_positions: Vec<(NodeId, usize)>,
    /// Byte offsets of each line start (index 0 = line 1 at offset 0).
    pub line_offsets: Vec<usize>,
}

/// Number of entries of `offs` that are at most `x`.
pub open spec fn count_le(offs: Seq<usize>, x: usize) -> nat
    decreases offs.len(),
{
    if offs.len() == 0 {
        0
    } else {
        count_le(offs.drop_last(), x) + if offs.last() <= x { 1nat } else { 0nat }
    }
}

/// Offsets strictly increase.
pub open spec fn strictly_sorted(offs: Seq<usize>) -> bool {
    forall|i: int, j: int| 0 <= i < j < offs.len() ==> offs[i] < offs[j]
}

/// The 1-based line holding `x`: the number of line starts at or before it, at least 1.
pub open spec fn spec_line_of(offs: Seq<usize>, x: usize) -> nat {
    if count_le(offs, x) == 0 { 1 } else { count_le(offs, x) }
}

/// At most every offset lies at or before `x`.
pub proof fn lemma_count_le_bound(offs: Seq<usize>, x: usize)
    ensures
        count_le(offs, x) <= offs.len(),
    decreases offs.len(),
{
    if offs.len() > 0 {
        lemma_count_le_bound(offs.drop_last(), x);
    }
}

proof fn lemma_count_le_prefix(offs: Seq<usize>, x: usize, k: int)
    requires
        strictly_sorted(offs),
        0 <= k <= offs.len(),
        forall|i: int| 0 <= i < k ==> offs[i] <= x,
        forall|i: int| k <= i < offs.len() ==> offs[i] > x,
    ensures
        count_le(offs, x) == k,
    decreases offs.len(),
{
    if offs.len() > 0 {
        if k == offs.len() {
            lemma_count_le_prefix(offs.drop_last(), x, k - 1);
        } else {
            lemma_count_le_prefix(offs.drop_last(), x, k);
        }
    }
}

impl SourceMap {
    pub fn new() -> (r: SourceMap)
        ensures
            r.node_ranges@.len() == 0,
            r.op_positions@.len() == 0,
            r.line_offsets@.len() == 0,
    {
        SourceMap { node_ranges: Vec::new(), op_positions: Vec::new(), line_offsets: Vec::new() }
    }

    /// Range recorded for a node, if any.
    pub open spec fn spec_node_range(&self, id: NodeId) -> Option<(usize, usize)> {
        if (id.0 as int) < self.node_ranges@.len() {
            Some(self.node_ranges@[id.0 as int])
        } else {
            None
        }
    }

    /// Range recorded for a node, if any.
    pub fn node_range(&self, id: NodeId) -> (r: Option<(usize, usize)>)
        ensures
            r == self.spec_node_range(id),
            r == (if (id.0 as int) < self.node_ranges@.len() {
                Some(self.node_ranges@[id.0 as int])
            } else {
                None::<(usize, usize)>
            }),
    {
        let i = id.0 as usize;
        if i < self.node_ranges.len() {
            Some(self.node_ranges[i])
        } else {
            None
        }
    }

    /// Whether the line start offsets are strictly increasing.
    pub fn has_sorted_lines(&self) -> (r: bool)
        ensures
            r == strictly_sorted(self.line_offsets@),
    {
        let offs = &self.line_offsets;
        let mut k: usize = 1;
        while k < offs.len()
            invariant
                offs@ == self.line_offsets@,
                1 <= k,
                k <= offs@.len() || offs@.len() == 0,
                forall|i: int, j: int| 0 <= i < j < k && j < offs@.len() ==> offs@[i] < offs@[j],
            decreases offs@.len() - k,
        {
            if offs[k] <= offs[k - 1] {
                proof {
                    let i = (k - 1) as int;
                    let j = k as int;
                    assert(0 <= i < j < offs@.len() && !(offs@[i] < offs@[j]));
                    assert(!strictly_sorted(self.line_offsets@));
                }
                return false;
            }
            assert forall|i: int, j: int| 0 <= i < j < k + 1 && j < offs@.len() implies offs@[i]
                < offs@[j] by {
                if j == k && i < k - 1 {
                    assert(offs@[i] < offs@[k - 1]);
                }
            }
            k = k + 1;
        }
        true
    }

    /// Convert a byte offset to a 1-based line number; `None` when no line offsets are recorded.
    pub fn byte_to_line(&self, byte_offset: usize) -> (r: Option<usize>)
        requires
            strictly_sorted(self.line_offsets@),
        ensures
            self.line_offsets@.len() == 0 ==> r is None,
            self.line_offsets@.len() > 0 ==> r == Some(
                spec_line_of(self.line_offsets@, byte_offset) as usize,
            ),
    {
        let offs = &self.line_offsets;
        if offs.len() == 0 {
            return None;
        }
        // Find the first index whose offset exceeds byte_offset.
        let mut lo: usize = 0;
        let mut hi: usize = offs.len();
        while lo < hi
            invariant
                0 <= lo <= hi <= offs@.len(),
                strictly_sorted(offs@),
                forall|i: int| 0 <= i < lo ==> offs@[i] <= byte_offset,
                forall|i: int| hi <= i < offs@.len() ==> offs@[i] > byte_offset,
            decreases hi - lo,
        {
            let mid = lo + (hi - lo) / 2;
            if offs[mid] <= byte_offset {
                lo = mid + 1;
            } else {
                hi = mid;
            }
        }
        proof {
            lemma_count_le_prefix(offs@, byte_offset, lo as int);
        }
        if lo == 0 {
            Some(1)
        } else {
            Some(lo)
        }
    }
}

/// `import a.b.c [as alias]`
#[derive(Debug)]
pub struct Import {
    pub node_id: NodeId,
    pub path: Vec<Ident>,
    pub alias: Option<Ident>,
}

/// `@invocation(...)`
#[derive(Debug)]
pub struct Annotation {
    pub node_id: NodeId,
    pub invocation: ExprInvocation,
}

/// A parsed source file.
#[derive(Debug)]
pub struct SourceFile {
    pub node_id: NodeId,
    pub file_path: Vec<char>,
    pub source_map: SourceMap,
    pub comments: Vec<Comment>,
    pub annotations: Vec<Annotation>,
    pub imports: Vec<Import>,
    pub constructs: Vec<Construct>,
}

/// A logical module, possibly spanning several files.
#[derive(Debug)]
pub struct Module {
    pub qualified_name: Vec<Vec<char>>,
    pub files: Vec<SourceFile>,
}

} // verus!
