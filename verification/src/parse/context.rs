use vstd::prelude::*;

use crate::model::symbol::{push_chars, str_chars};
use crate::model::{Comment, Construct, Field, Import, NodeId};
use crate::load::registry::join_dotted;
use crate::load::context::import_to_path;

use super::order::{
    construct_key, construct_key_spec, construct_label, construct_label_spec, field_key,
    field_key_spec, field_label, field_label_spec, find_ordering_violations, import_key,
    import_names, key_views, lemma_scan_order_valid, path_key, scan_order,
};
use super::ParseError;

verus! {

/// Spaces per indentation level.
pub const INDENT_WIDTH: usize = 4;

/// What delimiter opened an indentation level.
#[derive(Debug, Clone, Copy, PartialEq, Eq, Structural)]
pub enum IndentOpener {
    Brace,
    Bracket,
    Paren,
}

/// The byte length of the UTF-8 character that starts with byte `b`.
pub open spec fn lead_len(b: u8) -> nat {
    if b < 0x80 {
        1
    } else if b < 0xE0 {
        2
    } else if b < 0xF0 {
        3
    } else {
        4
    }
}

/// A UTF-8 continuation byte (not the start of a character).
pub open spec fn is_continuation(b: u8) -> bool {
    0x80 <= b < 0xC0
}

/// The state of parsing one source file: the source as UTF-8 bytes, the
/// byte position, node ids with their spans, and what was reported.
pub struct ParseContext {
    pub source: Vec<u8>,
    pub pos: usize,
    pub file_path: Vec<char>,
    pub next_node_id: u32,
    /// The span of each allocated node id, indexed by id.
    pub node_ranges: Vec<(usize, usize)>,
    pub comments: Vec<Comment>,
    pub parse_errors: Vec<ParseError>,
    pub strict_mode_violations: Vec<ParseError>,
    /// One entry per indentation level, with what opened it.
    pub indent_stack: Vec<IndentOpener>,
    /// Inside if-narrowing conditions, expressions leave bare `as`/`?` to the condition.
    pub suppress_narrowing_postfix: bool,
    /// Whether the last `parse_trivia` met a blank line.
    pub trivia_had_blank_line: bool,
    /// Byte offset of the start of the current line.
    pub line_start: usize,
}

/// The position and list lengths to go back to after a failed speculative parse.
#[derive(Debug, Clone, Copy)]
pub struct ParseSnapshot {
    pub pos: usize,
    pub next_node_id: u32,
    pub errors_len: usize,
    pub strict_len: usize,
    pub comments_len: usize,
    pub line_start: usize,
}

/// `s` starts with a line ending (`\n` or `\r\n`).
pub open spec fn starts_newline(s: Seq<u8>) -> bool {
    (s.len() > 0 && s[0] == 10) || (s.len() > 1 && s[0] == 13 && s[1] == 10)
}

/// The first index at or after `i` (and before `end`) that is not a space.
pub open spec fn skip_space_bytes(s: Seq<u8>, i: int, end: int) -> int
    decreases end - i,
{
    if i < end && s[i] == 32 {
        skip_space_bytes(s, i + 1, end)
    } else {
        i
    }
}

/// Whether the line `s[start..end]`, past its indentation and a `# ` comment
/// marker, holds a space: a place where it could be broken.
pub open spec fn line_has_break(s: Seq<u8>, start: int, end: int) -> bool {
    let t = skip_space_bytes(s, start, end);
    let c = if t + 1 < end && s[t] == 35 && s[t + 1] == 32 {
        t + 2
    } else {
        t
    };
    exists|i: int| c <= i < end && s[i] == 32
}

/// The end of the line that a `\n` at `pos` ends, before a `\r`.
pub open spec fn line_end_at(s: Seq<u8>, line_start: int, pos: int) -> int {
    if pos > line_start && s[pos - 1] == 13 {
        pos - 1
    } else {
        pos
    }
}

/// Whether the line that a `\n` at `pos` ends is too long: over 120 bytes
/// with a place to break it.
pub open spec fn line_too_long(s: Seq<u8>, line_start: int, pos: int) -> bool {
    let end = line_end_at(s, line_start, pos);
    end - line_start > 120 && line_has_break(s, line_start, end)
}

/// The index of the first `\n` at or after `i`, or the length.
pub open spec fn newline_from(s: Seq<u8>, i: int) -> int
    decreases s.len() - i,
{
    if i >= s.len() {
        s.len() as int
    } else if s[i] == 10 {
        i
    } else {
        newline_from(s, i + 1)
    }
}

/// `errs` report the `pairs` (item, item it should come before) in order,
/// at the items' ranges and with the given messages.
pub open spec fn reports_pairs(
    errs: Seq<ParseError>,
    pairs: Seq<(int, int)>,
    range_of: spec_fn(int) -> (usize, usize),
    message_of: spec_fn(int, int) -> Seq<char>,
) -> bool {
    &&& errs.len() == pairs.len()
    &&& forall|k: int|
        #![trigger errs[k]]
        0 <= k < errs.len() ==> {
            &&& errs[k].consumed_range == range_of(pairs[k].0)
            &&& errs[k].message@ == message_of(pairs[k].0, pairs[k].1)
            &&& errs[k].error_range is None
            &&& errs[k].cause is None
        }
}

pub open spec fn import_order_message(imps: Seq<Import>, i: int, t: int) -> Seq<char> {
    "Import '"@ + join_dotted(import_names(imps[i])) + "' should appear before '"@ + join_dotted(
        import_names(imps[t]),
    ) + "'"@
}

pub open spec fn label_order_message(a: Seq<char>, b: Seq<char>) -> Seq<char> {
    "'"@ + a + "' should appear before '"@ + b + "'"@
}

/// The imports that are out of order (by module path), each with the
/// import it should come before.
pub open spec fn import_order_violations(imps: Seq<Import>) -> Seq<(int, int)> {
    scan_order(
        imps.map_values(|i: Import| path_key(import_names(i))),
        Seq::new(imps.len(), |k: int| true),
        imps.len() as int,
    ).1
}

/// The valid constructs that are out of order (kind, `out` first, name).
pub open spec fn construct_order_violations(cs: Seq<Construct>) -> Seq<(int, int)> {
    scan_order(
        cs.map_values(|c: Construct| construct_key_spec(c)),
        cs.map_values(|c: Construct| !(c.kind is Invalid)),
        cs.len() as int,
    ).1
}

/// The valid fields that are out of order (group, name).
pub open spec fn field_order_violations(fs: Seq<Field>) -> Seq<(int, int)> {
    scan_order(
        fs.map_values(|f: Field| field_key_spec(f)),
        fs.map_values(|f: Field| !(f.kind is Invalid)),
        fs.len() as int,
    ).1
}


/// The snapshot of `c`: its position, line start, node-id counter and the
/// lengths of its reports.
pub open spec fn snapshot_of(c: ParseContext) -> ParseSnapshot {
    ParseSnapshot {
        pos: c.pos,
        next_node_id: c.next_node_id,
        errors_len: c.parse_errors@.len() as usize,
        strict_len: c.strict_mode_violations@.len() as usize,
        comments_len: c.comments@.len() as usize,
        line_start: c.line_start,
    }
}

/// `n` keeps what `o` holds and may have added to it: more node ids (with
/// `o`'s spans first), and more errors, violations and comments after `o`'s.
pub open spec fn grown_from(n: ParseContext, o: ParseContext) -> bool {
    &&& o.next_node_id <= n.next_node_id
    &&& n.node_ranges@.take(o.next_node_id as int) == o.node_ranges@
    &&& o.parse_errors@.len() <= n.parse_errors@.len()
    &&& n.parse_errors@.take(o.parse_errors@.len() as int) == o.parse_errors@
    &&& o.strict_mode_violations@.len() <= n.strict_mode_violations@.len()
    &&& n.strict_mode_violations@.take(o.strict_mode_violations@.len() as int) == o.strict_mode_violations@
    &&& o.comments@.len() <= n.comments@.len()
    &&& n.comments@.take(o.comments@.len() as int) == o.comments@
}

/// Restoring a snapshot of `c0` in a context `c1` grown from it, whatever was
/// parsed in between, gives back `c0`'s position, line start, node ids and
/// spans, errors, violations and comments.
pub proof fn lemma_restore_undoes(c0: ParseContext, c1: ParseContext, c2: ParseContext)
    requires
        c0.wf(),
        c0.parse_errors@.len() <= usize::MAX,
        c0.strict_mode_violations@.len() <= usize::MAX,
        c0.comments@.len() <= usize::MAX,
        grown_from(c1, c0),
        restored(c2, c1, snapshot_of(c0)),
    ensures
        c2.pos == c0.pos,
        c2.line_start == c0.line_start,
        c2.next_node_id == c0.next_node_id,
        c2.node_ranges@ == c0.node_ranges@,
        c2.parse_errors@ == c0.parse_errors@,
        c2.strict_mode_violations@ == c0.strict_mode_violations@,
        c2.comments@ == c0.comments@,
{
    if c0.parse_errors@.len() == c1.parse_errors@.len() {
        assert(c1.parse_errors@.take(c1.parse_errors@.len() as int) =~= c1.parse_errors@);
    }
    if c0.strict_mode_violations@.len() == c1.strict_mode_violations@.len() {
        assert(c1.strict_mode_violations@.take(c1.strict_mode_violations@.len() as int) =~= c1.strict_mode_violations@);
    }
    if c0.comments@.len() == c1.comments@.len() {
        assert(c1.comments@.take(c1.comments@.len() as int) =~= c1.comments@);
    }
}

/// What `restore` leaves in `n`, from `o`: the snapshot's position, line
/// start and node-id counter, node spans, errors, violations and comments cut
/// back to the snapshot's lengths, all else kept.
pub open spec fn restored(n: ParseContext, o: ParseContext, snap: ParseSnapshot) -> bool {
    &&& n.pos == snap.pos
    &&& n.line_start == snap.line_start
    &&& n.next_node_id == snap.next_node_id
    &&& n.node_ranges@ == o.node_ranges@.take(snap.next_node_id as int)
    &&& n.parse_errors@ == (if snap.errors_len < o.parse_errors@.len() {
        o.parse_errors@.take(snap.errors_len as int)
    } else {
        o.parse_errors@
    })
    &&& n.strict_mode_violations@ == (if snap.strict_len < o.strict_mode_violations@.len() {
        o.strict_mode_violations@.take(snap.strict_len as int)
    } else {
        o.strict_mode_violations@
    })
    &&& n.comments@ == (if snap.comments_len < o.comments@.len() {
        o.comments@.take(snap.comments_len as int)
    } else {
        o.comments@
    })
    &&& n.source == o.source
    &&& n.indent_stack == o.indent_stack
    &&& n.trivia_had_blank_line == o.trivia_had_blank_line
    &&& n.suppress_narrowing_postfix == o.suppress_narrowing_postfix
    &&& n.file_path == o.file_path
}

impl ParseContext {
    /// The context's consistency: positions within the source, one span per
    /// allocated node id, and room for a few bytes past the end.
    pub open spec fn wf(&self) -> bool {
        &&& self.pos <= self.source@.len()
        &&& self.line_start <= self.source@.len() + 1
        &&& self.source@.len() + 8 < usize::MAX
        &&& self.node_ranges@.len() == self.next_node_id
    }

    /// The bytes from the position on.
    pub open spec fn rest(&self) -> Seq<u8> {
        self.source@.subrange(self.pos as int, self.source@.len() as int)
    }

    /// Everything but the position is as in `o`.
    pub open spec fn same_but_pos(&self, o: &ParseContext) -> bool {
        &&& self.source == o.source
        &&& self.file_path == o.file_path
        &&& self.next_node_id == o.next_node_id
        &&& self.node_ranges == o.node_ranges
        &&& self.comments == o.comments
        &&& self.parse_errors == o.parse_errors
        &&& self.strict_mode_violations == o.strict_mode_violations
        &&& self.indent_stack == o.indent_stack
        &&& self.suppress_narrowing_postfix == o.suppress_narrowing_postfix
        &&& self.trivia_had_blank_line == o.trivia_had_blank_line
        &&& self.line_start == o.line_start
    }

    /// A context at the start of `source`.
    pub fn new(source: Vec<u8>, file_path: Vec<char>) -> (r: ParseContext)
        requires
            source@.len() + 8 < usize::MAX,
        ensures
            r.wf(),
            r.source == source,
            r.file_path == file_path,
            r.pos == 0,
            r.next_node_id == 0,
            r.comments@.len() == 0,
            r.parse_errors@.len() == 0,
            r.strict_mode_violations@.len() == 0,
            r.indent_stack@.len() == 0,
            !r.suppress_narrowing_postfix,
            !r.trivia_had_blank_line,
            r.line_start == 0,
    {
        ParseContext {
            source,
            pos: 0,
            file_path,
            next_node_id: 0,
            node_ranges: Vec::new(),
            comments: Vec::new(),
            parse_errors: Vec::new(),
            strict_mode_violations: Vec::new(),
            indent_stack: Vec::new(),
            suppress_narrowing_postfix: false,
            trivia_had_blank_line: false,
            line_start: 0,
        }
    }

    /// The byte before the position.
    pub fn prev_byte(&self) -> (r: Option<u8>)
        requires
            self.wf(),
        ensures
            r == (if self.pos > 0 {
                Some(self.source@[self.pos - 1])
            } else {
                None::<u8>
            }),
    {
        if self.pos > 0 {
            Some(self.source[self.pos - 1])
        } else {
            None
        }
    }

    pub fn pos(&self) -> (r: usize)
        ensures
            r == self.pos,
    {
        self.pos
    }

    /// The source from the position on.
    pub fn remaining(&self) -> (r: &[u8])
        requires
            self.wf(),
        ensures
            r@ == self.rest(),
    {
        &self.source.as_slice()[self.pos..self.source.len()]
    }

    /// The byte length of the character at the position; 0 at the end.
    pub fn next_char_len(&self) -> (r: usize)
        requires
            self.wf(),
        ensures
            r == (if self.pos < self.source@.len() {
                lead_len(self.source@[self.pos as int])
            } else {
                0
            }),
    {
        if self.pos >= self.source.len() {
            return 0;
        }
        let b = self.source[self.pos];
        if b < 0x80 {
            1
        } else if b < 0xE0 {
            2
        } else if b < 0xF0 {
            3
        } else {
            4
        }
    }

    /// A spacing violation: where no space was found (the position has not
    /// moved from `space_start`), it points at the next character; else at
    /// the spaces.
    pub fn spacing_error(&self, space_start: usize, message: Vec<char>) -> (r: ParseError)
        requires
            self.wf(),
            space_start <= self.pos,
        ensures
            r.consumed_range == (if self.pos == space_start {
                (
                    space_start,
                    (space_start + if self.pos < self.source@.len() {
                        lead_len(self.source@[self.pos as int])
                    } else {
                        0
                    }) as usize,
                )
            } else {
                (space_start, self.pos)
            }),
            r.message@ == message@,
            r.error_range is None,
            r.cause is None,
    {
        if self.pos == space_start {
            ParseError::new((space_start, space_start + self.next_char_len()), message)
        } else {
            ParseError::new((space_start, self.pos), message)
        }
    }

    /// The start of the character before the position: the last byte
    /// before it that is not a continuation byte, or 0.
    fn prev_char_start(&self) -> (r: usize)
        requires
            self.wf(),
            self.pos > 0,
        ensures
            r < self.pos,
            (r == 0 || !is_continuation(self.source@[r as int])),
            forall|i: int| r < i < self.pos ==> is_continuation(self.source@[i]),
    {
        let mut i = self.pos - 1;
        while i > 0 && self.source[i] >= 0x80 && self.source[i] < 0xC0
            invariant
                self.wf(),
                i < self.pos,
                forall|k: int| i < k < self.pos ==> is_continuation(self.source@[k]),
            decreases i,
        {
            i = i - 1;
        }
        i
    }

    /// An error at the character at the position; at a newline or the end,
    /// at the last character before it; at the start of an empty source, at
    /// the first byte.
    pub fn error_here(&self, message: Vec<char>) -> (r: ParseError)
        requires
            self.wf(),
        ensures
            r.message@ == message@,
            r.error_range is None,
            r.cause is None,
            self.pos < self.source@.len() && self.source@[self.pos as int] != 10 ==> r.consumed_range == (
                self.pos,
                (self.pos + lead_len(self.source@[self.pos as int])) as usize,
            ),
            !(self.pos < self.source@.len() && self.source@[self.pos as int] != 10) && self.pos > 0
                ==> {
                &&& r.consumed_range.1 == self.pos
                &&& r.consumed_range.0 < self.pos
                &&& (r.consumed_range.0 == 0 || !is_continuation(self.source@[r.consumed_range.0 as int]))
                &&& forall|i: int| r.consumed_range.0 < i < self.pos ==> is_continuation(self.source@[i])
            },
            !(self.pos < self.source@.len() && self.source@[self.pos as int] != 10) && self.pos == 0
                ==> r.consumed_range == (0usize, 1usize),
    {
        let at_visible = self.pos < self.source.len() && self.source[self.pos] != 10u8;
        let (start, end) = if at_visible {
            (self.pos, self.pos + self.next_char_len())
        } else if self.pos > 0 {
            (self.prev_char_start(), self.pos)
        } else {
            (0, 1)
        };
        ParseError::new((start, end), message)
    }

    /// The span of node `id`.
    pub fn node_span(&self, id: NodeId) -> (r: (usize, usize))
        requires
            (id.0 as int) < self.node_ranges@.len(),
        ensures
            r == self.node_ranges@[id.0 as int],
    {
        self.node_ranges[id.0 as usize]
    }

    /// Move the position `n` bytes on.
    pub fn advance(&mut self, n: usize)
        requires
            old(self).wf(),
            old(self).pos + n <= old(self).source@.len(),
        ensures
            final(self).wf(),
            final(self).pos == old(self).pos + n,
            final(self).same_but_pos(old(self)),
    {
        self.pos = self.pos + n;
    }

    /// Set the position (to go back after a failed speculative parse).
    pub fn set_pos(&mut self, pos: usize)
        requires
            old(self).wf(),
            pos <= old(self).source@.len(),
        ensures
            final(self).wf(),
            final(self).pos == pos,
            final(self).same_but_pos(old(self)),
    {
        self.pos = pos;
    }

    /// Consume spaces (not newlines or comments); gives how many.
    pub fn skip_spaces(&mut self) -> (r: usize)
        requires
            old(self).wf(),
        ensures
            final(self).wf(),
            final(self).pos == old(self).pos + r,
            forall|i: int| old(self).pos <= i < final(self).pos ==> old(self).source@[i] == 32,
            final(self).pos == old(self).source@.len() || old(self).source@[final(self).pos as int] != 32,
            final(self).same_but_pos(old(self)),
    {
        let start = self.pos;
        let mut p = self.pos;
        while p < self.source.len() && self.source[p] == 32u8
            invariant
                self.wf(),
                start == self.pos,
                start <= p <= self.source@.len(),
                forall|i: int| start <= i < p ==> self.source@[i] == 32,
            decreases self.source@.len() - p,
        {
            p = p + 1;
        }
        self.pos = p;
        p - start
    }

    /// Allocate a node id with the span `(start, end)`.
    pub fn alloc_node_id(&mut self, start: usize, end: usize) -> (r: NodeId)
        requires
            old(self).wf(),
            old(self).next_node_id < u32::MAX,
        ensures
            final(self).wf(),
            r.0 == old(self).next_node_id,
            final(self).next_node_id == old(self).next_node_id + 1,
            final(self).node_ranges@ == old(self).node_ranges@.push((start, end)),
            final(self).pos == old(self).pos,
            final(self).source == old(self).source,
            final(self).comments == old(self).comments,
            final(self).parse_errors == old(self).parse_errors,
            final(self).strict_mode_violations == old(self).strict_mode_violations,
            final(self).indent_stack == old(self).indent_stack,
            final(self).line_start == old(self).line_start,
            final(self).trivia_had_blank_line == old(self).trivia_had_blank_line,
            final(self).suppress_narrowing_postfix == old(self).suppress_narrowing_postfix,
            final(self).file_path == old(self).file_path,
    {
        let id = NodeId(self.next_node_id);
        self.next_node_id = self.next_node_id + 1;
        self.node_ranges.push((start, end));
        id
    }

    pub fn add_parse_error(&mut self, error: ParseError)
        ensures
            final(self).parse_errors@ == old(self).parse_errors@.push(error),
            final(self).strict_mode_violations == old(self).strict_mode_violations,
            final(self).pos == old(self).pos,
            final(self).source == old(self).source,
            final(self).next_node_id == old(self).next_node_id,
            final(self).node_ranges == old(self).node_ranges,
            final(self).comments == old(self).comments,
            final(self).indent_stack == old(self).indent_stack,
            final(self).line_start == old(self).line_start,
            final(self).trivia_had_blank_line == old(self).trivia_had_blank_line,
            final(self).suppress_narrowing_postfix == old(self).suppress_narrowing_postfix,
            final(self).file_path == old(self).file_path,
    {
        self.parse_errors.push(error);
    }

    pub fn add_strict_violation(&mut self, error: ParseError)
        ensures
            final(self).strict_mode_violations@ == old(self).strict_mode_violations@.push(error),
            final(self).parse_errors == old(self).parse_errors,
            final(self).pos == old(self).pos,
            final(self).source == old(self).source,
            final(self).next_node_id == old(self).next_node_id,
            final(self).node_ranges == old(self).node_ranges,
            final(self).comments == old(self).comments,
            final(self).indent_stack == old(self).indent_stack,
            final(self).line_start == old(self).line_start,
            final(self).trivia_had_blank_line == old(self).trivia_had_blank_line,
            final(self).suppress_narrowing_postfix == old(self).suppress_narrowing_postfix,
            final(self).file_path == old(self).file_path,
    {
        self.strict_mode_violations.push(error);
    }

    /// Save the state for a speculative parse.
    pub fn snapshot(&self) -> (r: ParseSnapshot)
        ensures
            r == snapshot_of(*self),
            r.pos == self.pos,
            r.next_node_id == self.next_node_id,
            r.errors_len == self.parse_errors@.len(),
            r.strict_len == self.strict_mode_violations@.len(),
            r.comments_len == self.comments@.len(),
            r.line_start == self.line_start,
    {
        ParseSnapshot {
            pos: self.pos,
            next_node_id: self.next_node_id,
            errors_len: self.parse_errors.len(),
            strict_len: self.strict_mode_violations.len(),
            comments_len: self.comments.len(),
            line_start: self.line_start,
        }
    }

    /// Go back to a snapshot, dropping the node ids, errors, violations and
    /// comments added since.
    pub fn restore(&mut self, snap: ParseSnapshot)
        requires
            old(self).wf(),
            snap.pos <= old(self).source@.len(),
            snap.line_start <= old(self).source@.len() + 1,
            snap.next_node_id <= old(self).next_node_id,
        ensures
            final(self).wf(),
            restored(*final(self), *old(self), snap),
            final(self).pos == snap.pos,
            final(self).line_start == snap.line_start,
            final(self).next_node_id == snap.next_node_id,
            final(self).node_ranges@ == old(self).node_ranges@.take(snap.next_node_id as int),
            final(self).parse_errors@ == (if snap.errors_len < old(self).parse_errors@.len() {
                old(self).parse_errors@.take(snap.errors_len as int)
            } else {
                old(self).parse_errors@
            }),
            final(self).strict_mode_violations@ == (if snap.strict_len
                < old(self).strict_mode_violations@.len() {
                old(self).strict_mode_violations@.take(snap.strict_len as int)
            } else {
                old(self).strict_mode_violations@
            }),
            final(self).comments@ == (if snap.comments_len < old(self).comments@.len() {
                old(self).comments@.take(snap.comments_len as int)
            } else {
                old(self).comments@
            }),
            final(self).source == old(self).source,
            final(self).indent_stack == old(self).indent_stack,
            final(self).trivia_had_blank_line == old(self).trivia_had_blank_line,
            final(self).suppress_narrowing_postfix == old(self).suppress_narrowing_postfix,
            final(self).file_path == old(self).file_path,
    {
        self.pos = snap.pos;
        self.node_ranges.truncate(snap.next_node_id as usize);
        self.next_node_id = snap.next_node_id;
        self.parse_errors.truncate(snap.errors_len);
        self.strict_mode_violations.truncate(snap.strict_len);
        self.comments.truncate(snap.comments_len);
        self.line_start = snap.line_start;
        proof {
            assert(self.node_ranges@ =~= old(self).node_ranges@.take(snap.next_node_id as int));
            if snap.errors_len < old(self).parse_errors@.len() {
                assert(self.parse_errors@ =~= old(self).parse_errors@.take(snap.errors_len as int));
            } else {
                assert(self.parse_errors@ =~= old(self).parse_errors@);
            }
            if snap.strict_len < old(self).strict_mode_violations@.len() {
                assert(self.strict_mode_violations@ =~= old(self).strict_mode_violations@.take(snap.strict_len as int));
            } else {
                assert(self.strict_mode_violations@ =~= old(self).strict_mode_violations@);
            }
            if snap.comments_len < old(self).comments@.len() {
                assert(self.comments@ =~= old(self).comments@.take(snap.comments_len as int));
            } else {
                assert(self.comments@ =~= old(self).comments@);
            }
        }
    }

    /// Whether the position is at a line ending (`\n` or `\r\n`).
    pub fn is_at_newline(&self) -> (r: bool)
        requires
            self.wf(),
        ensures
            r == starts_newline(self.rest()),
    {
        let n = self.source.len();
        let p = self.pos;
        (p < n && self.source[p] == 10u8) || (p + 1 < n && self.source[p] == 13u8 && self.source[p
            + 1] == 10u8)
    }

    /// Whether the position starts a line: the start of the file, or just
    /// after a `\n`.
    pub fn is_at_line_start(&self) -> (r: bool)
        requires
            self.wf(),
        ensures
            r == (self.pos == 0 || self.source@[self.pos - 1] == 10),
    {
        self.pos == 0 || self.source[self.pos - 1] == 10u8
    }

    /// Whether the source between two byte positions holds a newline.
    pub fn is_multiline(&self, from: usize, to: usize) -> (r: bool)
        requires
            from <= to <= self.source@.len(),
        ensures
            r == exists|i: int| from <= i < to && self.source@[i] == 10,
    {
        let mut i = from;
        while i < to
            invariant
                from <= i <= to <= self.source@.len(),
                forall|k: int| from <= k < i ==> self.source@[k] != 10,
            decreases to - i,
        {
            if self.source[i] == 10u8 {
                return true;
            }
            i = i + 1;
        }
        false
    }

    /// Strict mode: a comma must be followed by a space or a line ending.
    pub fn check_comma_spacing(&mut self)
        requires
            old(self).wf(),
        ensures
            final(self).wf(),
            ({
                let rest = old(self).rest();
                let ok = (rest.len() > 0 && rest[0] == 32) || starts_newline(rest);
                if ok {
                    final(self).strict_mode_violations == old(self).strict_mode_violations
                } else {
                    &&& final(self).strict_mode_violations@.len() == old(self).strict_mode_violations@.len() + 1
                    &&& final(self).strict_mode_violations@.drop_last() == old(self).strict_mode_violations@
                    &&& final(self).strict_mode_violations@.last().consumed_range == (
                        old(self).pos,
                        (old(self).pos + if old(self).pos < old(self).source@.len() {
                            lead_len(old(self).source@[old(self).pos as int])
                        } else {
                            0
                        }) as usize,
                    )
                    &&& final(self).strict_mode_violations@.last().message@ == "Expected space or newline after ','"@
                }
            }),
            final(self).parse_errors == old(self).parse_errors,
            final(self).pos == old(self).pos,
            final(self).source == old(self).source,
            final(self).node_ranges == old(self).node_ranges,
            final(self).next_node_id == old(self).next_node_id,
            final(self).line_start == old(self).line_start,
    {
        let n = self.source.len();
        let p = self.pos;
        let space = p < n && self.source[p] == 32u8;
        if !space && !self.is_at_newline() {
            let e = self.spacing_error(p, str_chars("Expected space or newline after ','"));
            self.add_strict_violation(e);
            assert(self.strict_mode_violations@.drop_last() =~= old(self).strict_mode_violations@);
        }
    }

    /// Record that a `\n` at the position ends the current line: strict mode
    /// reports a line over 120 bytes (with a place to break it), and the next
    /// line starts after the `\n`.
    pub(crate) fn on_newline(&mut self)
        requires
            old(self).wf(),
            old(self).line_start <= old(self).pos < old(self).source@.len(),
        ensures
            final(self).wf(),
            final(self).line_start == old(self).pos + 1,
            line_too_long(old(self).source@, old(self).line_start as int, old(self).pos as int) ==> {
                &&& final(self).strict_mode_violations@ == old(self).strict_mode_violations@.push(final(self).strict_mode_violations@.last())
                &&& final(self).strict_mode_violations@.last().consumed_range == (
                    (old(self).line_start + 120) as usize,
                    (old(self).line_start + 121) as usize,
                )
                &&& final(self).strict_mode_violations@.last().message@ == "Line exceeds 120 characters"@
                &&& final(self).strict_mode_violations@.last().error_range is None
                &&& final(self).strict_mode_violations@.last().cause is None
            },
            !line_too_long(old(self).source@, old(self).line_start as int, old(self).pos as int)
                ==> final(self).strict_mode_violations == old(self).strict_mode_violations,
            final(self).pos == old(self).pos,
            final(self).source == old(self).source,
            final(self).parse_errors == old(self).parse_errors,
            final(self).node_ranges == old(self).node_ranges,
            final(self).next_node_id == old(self).next_node_id,
            final(self).comments == old(self).comments,
            final(self).indent_stack == old(self).indent_stack,
            final(self).trivia_had_blank_line == old(self).trivia_had_blank_line,
            final(self).file_path == old(self).file_path,
            final(self).suppress_narrowing_postfix == old(self).suppress_narrowing_postfix,
    {
        let ls = self.line_start;
        let p = self.pos;
        let line_end = if p > ls && self.source[p - 1] == 13u8 {
            p - 1
        } else {
            p
        };
        if line_end - ls > 120 {
            let mut t = ls;
            while t < line_end && self.source[t] == 32u8
                invariant
                    self.wf(),
                    ls <= t <= line_end <= self.source@.len(),
                    skip_space_bytes(self.source@, ls as int, line_end as int) == skip_space_bytes(self.source@, t as int, line_end as int),
                decreases line_end - t,
            {
                t = t + 1;
            }
            let c = if t + 1 < line_end && self.source[t] == 35u8 && self.source[t + 1] == 32u8 {
                t + 2
            } else {
                t
            };
            let mut i = c;
            let mut found = false;
            while i < line_end
                invariant
                    self.wf(),
                    c <= i <= line_end <= self.source@.len(),
                    found == exists|k: int| c <= k < i && self.source@[k] == 32,
                decreases line_end - i,
            {
                if self.source[i] == 32u8 {
                    found = true;
                }
                i = i + 1;
            }
            if found {
                self.add_strict_violation(ParseError::new((ls + 120, ls + 121), str_chars("Line exceeds 120 characters")));
            }
        }
        self.line_start = p + 1;
    }

    /// Set the line start after a token that spans lines: just after the
    /// last `\n` before the position, if any.
    pub fn sync_line_start(&mut self)
        requires
            old(self).wf(),
        ensures
            final(self).wf(),
            (exists|i: int| 0 <= i < old(self).pos && old(self).source@[i] == 10) ==> {
                &&& old(self).source@[final(self).line_start - 1] == 10
                &&& final(self).line_start <= old(self).pos
                &&& forall|i: int| final(self).line_start <= i < old(self).pos ==> old(self).source@[i] != 10
            },
            !(exists|i: int| 0 <= i < old(self).pos && old(self).source@[i] == 10) ==> final(self).line_start == old(self).line_start,
            final(self).same_but_line_start(old(self)),
            final(self).file_path == old(self).file_path,
            final(self).trivia_had_blank_line == old(self).trivia_had_blank_line,
            final(self).suppress_narrowing_postfix == old(self).suppress_narrowing_postfix,
    {
        let mut i = self.pos;
        while i > 0 && self.source[i - 1] != 10u8
            invariant
                self.wf(),
                *self == *old(self),
                i <= self.pos,
                forall|k: int| i <= k < self.pos ==> self.source@[k] != 10,
            decreases i,
        {
            i = i - 1;
        }
        if i > 0 {
            self.line_start = i;
        }
    }

    /// What `skip_past_end_of_line` leaves: unchanged at a line start or the
    /// end; else the position just past the next `\n` (through `on_newline`),
    /// or the end where there is none.
    pub open spec fn skipped_line(&self, o: &ParseContext) -> bool {
        let s = o.source@;
        let p = o.pos as int;
        if p == 0 || s[p - 1] == 10 || p == s.len() {
            *self == *o
        } else {
            let q = newline_from(s, p);
            if q < s.len() {
                &&& self.pos == q + 1
                &&& self.line_start == q + 1
                &&& (line_too_long(s, o.line_start as int, q) ==> {
                    &&& self.strict_mode_violations@ == o.strict_mode_violations@.push(self.strict_mode_violations@.last())
                    &&& self.strict_mode_violations@.last().consumed_range == ((o.line_start + 120) as usize, (o.line_start + 121) as usize)
                    &&& self.strict_mode_violations@.last().message@ == "Line exceeds 120 characters"@
                })
                &&& (!line_too_long(s, o.line_start as int, q) ==> self.strict_mode_violations == o.strict_mode_violations)
                &&& self.source == o.source
                &&& self.parse_errors == o.parse_errors
                &&& self.node_ranges == o.node_ranges
                &&& self.next_node_id == o.next_node_id
                &&& self.comments == o.comments
                &&& self.indent_stack == o.indent_stack
                &&& self.trivia_had_blank_line == o.trivia_had_blank_line
            } else {
                &&& self.pos == s.len()
                &&& self.same_but_pos(o)
            }
        }
    }

    /// Skip past the end of the current line (to recover from an error);
    /// nothing at a line start or at the end.
    pub fn skip_past_end_of_line(&mut self)
        requires
            old(self).wf(),
            old(self).line_start <= old(self).pos,
        ensures
            final(self).wf(),
            final(self).skipped_line(old(self)),
    {
        let n = self.source.len();
        if self.pos == 0 || self.source[self.pos - 1] == 10u8 || self.pos == n {
            return;
        }
        let mut q = self.pos;
        while q < n && self.source[q] != 10u8
            invariant
                self.wf(),
                *self == *old(self),
                n == self.source@.len(),
                self.pos <= q <= n,
                newline_from(self.source@, self.pos as int) == newline_from(self.source@, q as int),
            decreases n - q,
        {
            q = q + 1;
        }
        if q < n {
            self.pos = q;
            self.on_newline();
            self.pos = q + 1;
        } else {
            self.pos = n;
        }
    }

    /// After a statement, only a line ending, `}` or a comment may follow
    /// (after spaces); anything else is reported at the position and the rest
    /// of the line is skipped.
    pub fn check_stmt_termination(&mut self)
        requires
            old(self).wf(),
            old(self).line_start <= old(self).pos,
        ensures
            final(self).wf(),
            ({
                let s = old(self).source@;
                let p = old(self).pos as int;
                let t = skip_space_bytes(s, p, s.len() as int);
                let bad = p < s.len() && !starts_newline(old(self).rest()) && !(p == 0 || s[p - 1] == 10)
                    && !(t < s.len() && (s[t] == 125 || s[t] == 35));
                if bad {
                    exists|mid: ParseContext| {
                        &&& mid.parse_errors@.len() == old(self).parse_errors@.len() + 1
                        &&& mid.parse_errors@.drop_last() == old(self).parse_errors@
                        &&& mid.parse_errors@.last().message@ == "Expected newline or '}' after statement"@
                        &&& mid.parse_errors@.last().consumed_range == (old(self).pos, (old(self).pos + lead_len(s[p])) as usize)
                        &&& mid.pos == old(self).pos
                        &&& mid.line_start == old(self).line_start
                        &&& mid.source == old(self).source
                        &&& mid.strict_mode_violations == old(self).strict_mode_violations
                        &&& mid.node_ranges == old(self).node_ranges
                        &&& mid.next_node_id == old(self).next_node_id
                        &&& mid.comments == old(self).comments
                        &&& mid.indent_stack == old(self).indent_stack
                        &&& mid.trivia_had_blank_line == old(self).trivia_had_blank_line
                        &&& mid.suppress_narrowing_postfix == old(self).suppress_narrowing_postfix
                        &&& mid.file_path == old(self).file_path
                        &&& final(self).skipped_line(&mid)
                    }
                } else {
                    *final(self) == *old(self)
                }
            }),
    {
        let n = self.source.len();
        let p = self.pos;
        if p < n && !self.is_at_newline() && !self.is_at_line_start() {
            let mut t = p;
            while t < n && self.source[t] == 32u8
                invariant
                    self.wf(),
                    *self == *old(self),
                    n == self.source@.len(),
                    p <= t <= n,
                    skip_space_bytes(self.source@, p as int, n as int) == skip_space_bytes(self.source@, t as int, n as int),
                decreases n - t,
            {
                t = t + 1;
            }
            if !(t < n && (self.source[t] == 125u8 || self.source[t] == 35u8)) {
                let e = self.error_here(str_chars("Expected newline or '}' after statement"));
                self.add_parse_error(e);
                let ghost mid = *self;
                assert(mid.parse_errors@.drop_last() =~= old(self).parse_errors@);
                self.skip_past_end_of_line();
                assert(self.skipped_line(&mid));
            }
        }
    }

    /// Append `errs` to the strict-mode violations.
    fn append_violations(&mut self, errs: Vec<ParseError>)
        requires
            old(self).wf(),
        ensures
            final(self).wf(),
            final(self).strict_mode_violations@ == old(self).strict_mode_violations@ + errs@,
            final(self).parse_errors == old(self).parse_errors,
            final(self).pos == old(self).pos,
            final(self).source == old(self).source,
            final(self).node_ranges == old(self).node_ranges,
            final(self).next_node_id == old(self).next_node_id,
            final(self).line_start == old(self).line_start,
            final(self).comments == old(self).comments,
            final(self).indent_stack == old(self).indent_stack,
    {
        let mut errs = errs;
        let ghost all = errs@;
        let mut k: usize = 0;
        assert(errs@ =~= all.subrange(0, all.len() as int));
        assert(all.len() == errs.len());
        while errs.len() > 0
            invariant
                self.wf(),
                all.len() <= usize::MAX,
                k <= all.len(),
                errs@ == all.subrange(k as int, all.len() as int),
                self.strict_mode_violations@ == old(self).strict_mode_violations@ + all.take(k as int),
                self.parse_errors == old(self).parse_errors,
                self.pos == old(self).pos,
                self.source == old(self).source,
                self.node_ranges == old(self).node_ranges,
                self.next_node_id == old(self).next_node_id,
                self.line_start == old(self).line_start,
                self.comments == old(self).comments,
                self.indent_stack == old(self).indent_stack,
            decreases errs@.len(),
        {
            let e = errs.remove(0);
            assert(e == all[k as int]);
            assert(errs@ =~= all.subrange(k + 1, all.len() as int));
            self.strict_mode_violations.push(e);
            assert(all.take(k + 1) =~= all.take(k as int).push(all[k as int]));
            k = k + 1;
        }
        assert(all.take(all.len() as int) =~= all);
    }

    /// The errors for out-of-order imports.
    fn import_order_errors(&self, imports: &Vec<Import>, iv: &Vec<(usize, usize)>) -> (r: Vec<ParseError>)
        requires
            forall|k: int| 0 <= k < imports@.len() ==> (imports@[k].node_id.0 as int) < self.node_ranges@.len(),
            forall|j: int| 0 <= j < iv@.len() ==> (#[trigger] iv@[j]).1 < iv@[j].0 < imports@.len(),
        ensures
            reports_pairs(
                r@,
                iv@.map_values(|p: (usize, usize)| (p.0 as int, p.1 as int)),
                |i: int| self.node_ranges@[imports@[i].node_id.0 as int],
                |i: int, t: int| import_order_message(imports@, i, t),
            ),
    {
        let mut out: Vec<ParseError> = Vec::new();
        let mut q: usize = 0;
        while q < iv.len()
            invariant
                q <= iv@.len(),
                forall|k: int| 0 <= k < imports@.len() ==> (imports@[k].node_id.0 as int) < self.node_ranges@.len(),
                forall|j: int| 0 <= j < iv@.len() ==> (#[trigger] iv@[j]).1 < iv@[j].0 < imports@.len(),
                out@.len() == q,
                forall|j: int| 0 <= j < q ==> {
                    &&& (#[trigger] out@[j]).consumed_range == self.node_ranges@[imports@[iv@[j].0 as int].node_id.0 as int]
                    &&& out@[j].message@ == import_order_message(imports@, iv@[j].0 as int, iv@[j].1 as int)
                    &&& out@[j].error_range is None
                    &&& out@[j].cause is None
                },
            decreases iv@.len() - q,
        {
            let (i, t) = iv[q];
            let range = self.node_span(imports[i].node_id);
            let mut m = str_chars("Import '");
            let a = import_to_path(&imports[i]);
            push_chars(&mut m, a.as_str());
            let mid = str_chars("' should appear before '");
            push_chars(&mut m, mid.as_slice());
            let b = import_to_path(&imports[t]);
            push_chars(&mut m, b.as_str());
            m.push('\'');
            proof {
                reveal_strlit("'");
                assert(import_names(imports@[i as int]) =~= crate::load::context::ident_names(imports@[i as int].path@));
                assert(import_names(imports@[t as int]) =~= crate::load::context::ident_names(imports@[t as int].path@));
                assert(m@ =~= import_order_message(imports@, i as int, t as int));
            }
            out.push(ParseError::new(range, m));
            q = q + 1;
        }
        out
    }

    /// The errors for out-of-order constructs or fields, given their labels.
    fn label_order_errors(&self, node_ids: &Vec<NodeId>, labels: &Vec<Vec<char>>, pairs: &Vec<(usize, usize)>) -> (r: Vec<ParseError>)
        requires
            node_ids@.len() == labels@.len(),
            forall|j: int| 0 <= j < pairs@.len() ==> (#[trigger] pairs@[j]).1 < pairs@[j].0 < node_ids@.len(),
            forall|j: int| 0 <= j < pairs@.len() ==> (node_ids@[pairs@[j].0 as int].0 as int) < self.node_ranges@.len(),
        ensures
            reports_pairs(
                r@,
                pairs@.map_values(|p: (usize, usize)| (p.0 as int, p.1 as int)),
                |i: int| self.node_ranges@[node_ids@[i].0 as int],
                |i: int, t: int| label_order_message(labels@[i]@, labels@[t]@),
            ),
    {
        let mut out: Vec<ParseError> = Vec::new();
        let mut q: usize = 0;
        while q < pairs.len()
            invariant
                q <= pairs@.len(),
                node_ids@.len() == labels@.len(),
                forall|j: int| 0 <= j < pairs@.len() ==> (#[trigger] pairs@[j]).1 < pairs@[j].0 < node_ids@.len(),
                forall|j: int| 0 <= j < pairs@.len() ==> (node_ids@[pairs@[j].0 as int].0 as int) < self.node_ranges@.len(),
                out@.len() == q,
                forall|j: int| 0 <= j < q ==> {
                    &&& (#[trigger] out@[j]).consumed_range == self.node_ranges@[node_ids@[pairs@[j].0 as int].0 as int]
                    &&& out@[j].message@ == label_order_message(labels@[pairs@[j].0 as int]@, labels@[pairs@[j].1 as int]@)
                    &&& out@[j].error_range is None
                    &&& out@[j].cause is None
                },
            decreases pairs@.len() - q,
        {
            let (i, t) = pairs[q];
            let range = self.node_span(node_ids[i]);
            let mut m = str_chars("'");
            push_chars(&mut m, labels[i].as_slice());
            let mid = str_chars("' should appear before '");
            push_chars(&mut m, mid.as_slice());
            push_chars(&mut m, labels[t].as_slice());
            m.push('\'');
            proof {
                reveal_strlit("'");
                assert(m@ =~= label_order_message(labels@[i as int]@, labels@[t as int]@));
            }
            out.push(ParseError::new(range, m));
            q = q + 1;
        }
        out
    }

    /// Strict mode: imports in order of module path (segment by segment),
    /// then constructs in order of kind, `out` ones first, and name. Each item
    /// out of order is reported at its span, naming the first of the earlier
    /// items with the least key above its own.
    pub fn assert_ordering(&mut self, imports: &Vec<Import>, constructs: &Vec<Construct>)
        requires
            old(self).wf(),
            forall|k: int| 0 <= k < imports@.len() ==> (imports@[k].node_id.0 as int) < old(self).node_ranges@.len(),
            forall|k: int| 0 <= k < constructs@.len() && !(constructs@[k].kind is Invalid) ==> (constructs@[k].node_id.0 as int) < old(self).node_ranges@.len(),
        ensures
            final(self).wf(),
            ({
                let iv = import_order_violations(imports@);
                let cv = construct_order_violations(constructs@);
                let added = final(self).strict_mode_violations@.subrange(
                    old(self).strict_mode_violations@.len() as int,
                    final(self).strict_mode_violations@.len() as int,
                );
                &&& final(self).strict_mode_violations@.len() == old(self).strict_mode_violations@.len() + iv.len() + cv.len()
                &&& final(self).strict_mode_violations@.subrange(0, old(self).strict_mode_violations@.len() as int) == old(self).strict_mode_violations@
                &&& reports_pairs(
                    added.take(iv.len() as int),
                    iv,
                    |i: int| old(self).node_ranges@[imports@[i].node_id.0 as int],
                    |i: int, t: int| import_order_message(imports@, i, t),
                )
                &&& reports_pairs(
                    added.skip(iv.len() as int),
                    cv,
                    |i: int| old(self).node_ranges@[constructs@[i].node_id.0 as int],
                    |i: int, t: int| label_order_message(construct_label_spec(constructs@[i]), construct_label_spec(constructs@[t])),
                )
            }),
            final(self).parse_errors == old(self).parse_errors,
            final(self).pos == old(self).pos,
            final(self).source == old(self).source,
            final(self).node_ranges == old(self).node_ranges,
            final(self).next_node_id == old(self).next_node_id,
            final(self).line_start == old(self).line_start,
            final(self).comments == old(self).comments,
            final(self).indent_stack == old(self).indent_stack,
    {
        let mut keys: Vec<Vec<u32>> = Vec::new();
        let mut valid: Vec<bool> = Vec::new();
        let mut k: usize = 0;
        while k < imports.len()
            invariant
                k <= imports@.len(),
                keys@.len() == k,
                valid@.len() == k,
                key_views(keys@) == imports@.take(k as int).map_values(|i: Import| path_key(import_names(i))),
                valid@ == Seq::new(k as nat, |q: int| true),
            decreases imports@.len() - k,
        {
            let ghost kb = key_views(keys@);
            keys.push(import_key(&imports[k]));
            valid.push(true);
            assert(key_views(keys@) =~= kb.push(path_key(import_names(imports@[k as int]))));
            assert(imports@.take(k + 1).map_values(|i: Import| path_key(import_names(i))) =~= imports@.take(k as int).map_values(|i: Import| path_key(import_names(i))).push(path_key(import_names(imports@[k as int]))));
            assert(valid@ =~= Seq::new((k + 1) as nat, |q: int| true));
            k = k + 1;
        }
        assert(imports@.take(imports@.len() as int) =~= imports@);
        assert(key_views(keys@) =~= imports@.map_values(|i: Import| path_key(import_names(i))));
        assert(valid@ =~= Seq::new(imports@.len(), |k: int| true));
        let iv = find_ordering_violations(&keys, &valid);
        let ierrs = self.import_order_errors(imports, &iv);

        let mut ckeys: Vec<Vec<u32>> = Vec::new();
        let mut cvalid: Vec<bool> = Vec::new();
        let mut ids: Vec<NodeId> = Vec::new();
        let mut labels: Vec<Vec<char>> = Vec::new();
        let mut k: usize = 0;
        while k < constructs.len()
            invariant
                k <= constructs@.len(),
                ckeys@.len() == k,
                cvalid@.len() == k,
                ids@.len() == k,
                labels@.len() == k,
                key_views(ckeys@) == constructs@.take(k as int).map_values(|c: Construct| construct_key_spec(c)),
                cvalid@ == constructs@.take(k as int).map_values(|c: Construct| !(c.kind is Invalid)),
                forall|j: int| 0 <= j < k ==> ids@[j] == constructs@[j].node_id && labels@[j]@ == construct_label_spec(constructs@[j]),
            decreases constructs@.len() - k,
        {
            let ghost kb = key_views(ckeys@);
            let ghost vb = cvalid@;
            ckeys.push(construct_key(&constructs[k]));
            let is_valid = match &constructs[k].kind {
                crate::model::ConstructKind::Invalid(_) => false,
                _ => true,
            };
            cvalid.push(is_valid);
            ids.push(constructs[k].node_id);
            labels.push(construct_label(&constructs[k]));
            assert(key_views(ckeys@) =~= kb.push(construct_key_spec(constructs@[k as int])));
            assert(constructs@.take(k + 1).map_values(|c: Construct| construct_key_spec(c)) =~= constructs@.take(k as int).map_values(|c: Construct| construct_key_spec(c)).push(construct_key_spec(constructs@[k as int])));
            assert(constructs@.take(k + 1).map_values(|c: Construct| !(c.kind is Invalid)) =~= vb.push(!(constructs@[k as int].kind is Invalid)));
            k = k + 1;
        }
        assert(constructs@.take(constructs@.len() as int) =~= constructs@);
        assert(key_views(ckeys@) =~= constructs@.map_values(|c: Construct| construct_key_spec(c)));
        assert(cvalid@ =~= constructs@.map_values(|c: Construct| !(c.kind is Invalid)));
        let cv = find_ordering_violations(&ckeys, &cvalid);
        proof {
            assert forall|j: int| 0 <= j < cv@.len() implies (ids@[cv@[j].0 as int].0 as int) < self.node_ranges@.len() by {
                let i = cv@[j].0 as int;
                lemma_scan_order_valid(key_views(ckeys@), cvalid@, cvalid@.len() as int, j);
                assert(cv@.map_values(|p: (usize, usize)| (p.0 as int, p.1 as int))[j] == (cv@[j].0 as int, cv@[j].1 as int));
                assert(cvalid@[i] == !(constructs@[i].kind is Invalid));
            }
        }
        let cerrs = self.label_order_errors(&ids, &labels, &cv);
        let ghost ie = ierrs@;
        let ghost ce = cerrs@;
        self.append_violations(ierrs);
        self.append_violations(cerrs);
        proof {
            let added = self.strict_mode_violations@.subrange(
                old(self).strict_mode_violations@.len() as int,
                self.strict_mode_violations@.len() as int,
            );
            assert(added =~= ie + ce);
            assert(added.take(ie.len() as int) =~= ie);
            assert(added.skip(ie.len() as int) =~= ce);
            let ivs = iv@.map_values(|p: (usize, usize)| (p.0 as int, p.1 as int));
            let cvs = cv@.map_values(|p: (usize, usize)| (p.0 as int, p.1 as int));
            assert(ivs == import_order_violations(imports@));
            assert(cvs == construct_order_violations(constructs@));
            assert forall|k: int| 0 <= k < ce.len() implies (#[trigger] ce[k]).message@ == label_order_message(
                construct_label_spec(constructs@[cvs[k].0]),
                construct_label_spec(constructs@[cvs[k].1]),
            ) by {
                assert(cvs[k] == (cv@[k].0 as int, cv@[k].1 as int));
                assert(cv@[k].1 < cv@[k].0 < ckeys@.len());
                assert(ids@[cvs[k].0] == constructs@[cvs[k].0].node_id);
                assert(ids@[cvs[k].1] == constructs@[cvs[k].1].node_id);
                assert(labels@[cvs[k].0]@ == construct_label_spec(constructs@[cvs[k].0]));
                assert(labels@[cvs[k].1]@ == construct_label_spec(constructs@[cvs[k].1]));
            }
            assert forall|k: int| 0 <= k < ce.len() implies (#[trigger] ce[k]).consumed_range == old(self).node_ranges@[constructs@[cvs[k].0].node_id.0 as int] by {
                assert(ids@[cvs[k].0] == constructs@[cvs[k].0].node_id);
            }
            assert(self.strict_mode_violations@.subrange(0, old(self).strict_mode_violations@.len() as int) =~= old(self).strict_mode_violations@);
        }
    }

    /// Strict mode: the fields of a construct body in order of group (intype,
    /// in without then with a default, inout likewise, out, out!, implicit,
    /// value) and name. Each field out of order is reported at its span,
    /// naming the first of the earlier fields with the least key above its own.
    pub fn assert_field_ordering(&mut self, fields: &Vec<Field>)
        requires
            old(self).wf(),
            forall|k: int| 0 <= k < fields@.len() && !(fields@[k].kind is Invalid) ==> (fields@[k].node_id.0 as int) < old(self).node_ranges@.len(),
        ensures
            final(self).wf(),
            ({
                let fv = field_order_violations(fields@);
                let added = final(self).strict_mode_violations@.subrange(
                    old(self).strict_mode_violations@.len() as int,
                    final(self).strict_mode_violations@.len() as int,
                );
                &&& final(self).strict_mode_violations@.subrange(0, old(self).strict_mode_violations@.len() as int) == old(self).strict_mode_violations@
                &&& reports_pairs(
                    added,
                    fv,
                    |i: int| old(self).node_ranges@[fields@[i].node_id.0 as int],
                    |i: int, t: int| label_order_message(field_label_spec(fields@[i]), field_label_spec(fields@[t])),
                )
            }),
            final(self).parse_errors == old(self).parse_errors,
            final(self).pos == old(self).pos,
            final(self).source == old(self).source,
            final(self).node_ranges == old(self).node_ranges,
            final(self).next_node_id == old(self).next_node_id,
            final(self).line_start == old(self).line_start,
            final(self).comments == old(self).comments,
            final(self).indent_stack == old(self).indent_stack,
    {
        let mut keys: Vec<Vec<u32>> = Vec::new();
        let mut valid: Vec<bool> = Vec::new();
        let mut ids: Vec<NodeId> = Vec::new();
        let mut labels: Vec<Vec<char>> = Vec::new();
        let mut k: usize = 0;
        while k < fields.len()
            invariant
                k <= fields@.len(),
                keys@.len() == k,
                valid@.len() == k,
                ids@.len() == k,
                labels@.len() == k,
                key_views(keys@) == fields@.take(k as int).map_values(|f: Field| field_key_spec(f)),
                valid@ == fields@.take(k as int).map_values(|f: Field| !(f.kind is Invalid)),
                forall|j: int| 0 <= j < k ==> #[trigger] ids@[j] == fields@[j].node_id,
                forall|j: int| 0 <= j < k ==> #[trigger] labels@[j]@ == field_label_spec(fields@[j]),
            decreases fields@.len() - k,
        {
            let ghost kb = key_views(keys@);
            let ghost vb = valid@;
            let ghost ib = ids@;
            let ghost lb = labels@;
            keys.push(field_key(&fields[k]));
            let is_valid = match &fields[k].kind {
                crate::model::FieldKind::Invalid(_) => false,
                _ => true,
            };
            valid.push(is_valid);
            ids.push(fields[k].node_id);
            labels.push(field_label(&fields[k]));
            assert(key_views(keys@) =~= kb.push(field_key_spec(fields@[k as int])));
            assert(fields@.take(k + 1).map_values(|f: Field| field_key_spec(f)) =~= fields@.take(k as int).map_values(|f: Field| field_key_spec(f)).push(field_key_spec(fields@[k as int])));
            assert(fields@.take(k + 1).map_values(|f: Field| !(f.kind is Invalid)) =~= vb.push(!(fields@[k as int].kind is Invalid)));
            assert(ids@ == ib.push(fields@[k as int].node_id));
            assert(labels@[k as int]@ == field_label_spec(fields@[k as int]));
            assert forall|j: int| 0 <= j < k + 1 implies #[trigger] ids@[j] == fields@[j].node_id by {
                if j < k {
                    assert(ids@[j] == ib[j]);
                }
            }
            assert forall|j: int| 0 <= j < k + 1 implies #[trigger] labels@[j]@ == field_label_spec(fields@[j]) by {
                if j < k {
                    assert(labels@[j] == lb[j]);
                }
            }
            k = k + 1;
        }
        assert(fields@.take(fields@.len() as int) =~= fields@);
        assert(key_views(keys@) =~= fields@.map_values(|f: Field| field_key_spec(f)));
        assert(valid@ =~= fields@.map_values(|f: Field| !(f.kind is Invalid)));
        let fv = find_ordering_violations(&keys, &valid);
        proof {
            assert forall|j: int| 0 <= j < fv@.len() implies (ids@[fv@[j].0 as int].0 as int) < self.node_ranges@.len() by {
                let i = fv@[j].0 as int;
                lemma_scan_order_valid(key_views(keys@), valid@, valid@.len() as int, j);
                assert(fv@.map_values(|p: (usize, usize)| (p.0 as int, p.1 as int))[j] == (fv@[j].0 as int, fv@[j].1 as int));
                assert(valid@[i] == !(fields@[i].kind is Invalid));
                assert(ids@[i] == fields@[i].node_id);
            }
        }
        let errs = self.label_order_errors(&ids, &labels, &fv);
        let ghost fe = errs@;
        self.append_violations(errs);
        proof {
            let added = self.strict_mode_violations@.subrange(
                old(self).strict_mode_violations@.len() as int,
                self.strict_mode_violations@.len() as int,
            );
            assert(added =~= fe);
            assert(self.strict_mode_violations@.subrange(0, old(self).strict_mode_violations@.len() as int) =~= old(self).strict_mode_violations@);
            let fvs = fv@.map_values(|p: (usize, usize)| (p.0 as int, p.1 as int));
            assert forall|k: int| 0 <= k < fe.len() implies (#[trigger] fe[k]).message@ == label_order_message(
                field_label_spec(fields@[fvs[k].0]),
                field_label_spec(fields@[fvs[k].1]),
            ) && fe[k].consumed_range == old(self).node_ranges@[fields@[fvs[k].0].node_id.0 as int] by {
                assert(fvs[k] == (fv@[k].0 as int, fv@[k].1 as int));
                assert(fv@[k].1 < fv@[k].0 < keys@.len());
                assert(ids@[fvs[k].0] == fields@[fvs[k].0].node_id);
                assert(ids@[fvs[k].1] == fields@[fvs[k].1].node_id);
            }
        }
    }

    /// Everything but the line start is as in `o`.
    pub open spec fn same_but_line_start(&self, o: &ParseContext) -> bool {
        &&& self.source == o.source
        &&& self.pos == o.pos
        &&& self.next_node_id == o.next_node_id
        &&& self.node_ranges == o.node_ranges
        &&& self.comments == o.comments
        &&& self.parse_errors == o.parse_errors
        &&& self.strict_mode_violations == o.strict_mode_violations
        &&& self.indent_stack == o.indent_stack
    }

    /// The expected indentation, in spaces.
    pub open spec fn spec_current_indent(&self) -> int {
        (self.indent_stack@.len() * 4) as int
    }

    pub(crate) fn current_indent(&self) -> (r: usize)
        requires
            self.indent_stack@.len() * 4 < usize::MAX,
        ensures
            r == self.spec_current_indent(),
    {
        self.indent_stack.len() * INDENT_WIDTH
    }

    /// One indentation level more, opened by `opener`.
    pub fn indent(&mut self, opener: IndentOpener)
        ensures
            final(self).indent_stack@ == old(self).indent_stack@.push(opener),
            final(self).pos == old(self).pos,
            final(self).source == old(self).source,
            final(self).next_node_id == old(self).next_node_id,
            final(self).node_ranges == old(self).node_ranges,
            final(self).comments == old(self).comments,
            final(self).parse_errors == old(self).parse_errors,
            final(self).strict_mode_violations == old(self).strict_mode_violations,
            final(self).line_start == old(self).line_start,
            final(self).file_path == old(self).file_path,
            final(self).suppress_narrowing_postfix == old(self).suppress_narrowing_postfix,
            final(self).trivia_had_blank_line == old(self).trivia_had_blank_line,
    {
        self.indent_stack.push(opener);
    }

    /// One indentation level less (none at the outermost level).
    pub fn dedent(&mut self)
        ensures
            final(self).indent_stack@ == (if old(self).indent_stack@.len() > 0 {
                old(self).indent_stack@.drop_last()
            } else {
                old(self).indent_stack@
            }),
            final(self).pos == old(self).pos,
            final(self).source == old(self).source,
            final(self).next_node_id == old(self).next_node_id,
            final(self).node_ranges == old(self).node_ranges,
            final(self).comments == old(self).comments,
            final(self).parse_errors == old(self).parse_errors,
            final(self).strict_mode_violations == old(self).strict_mode_violations,
            final(self).line_start == old(self).line_start,
            final(self).file_path == old(self).file_path,
            final(self).suppress_narrowing_postfix == old(self).suppress_narrowing_postfix,
            final(self).trivia_had_blank_line == old(self).trivia_had_blank_line,
    {
        self.indent_stack.pop();
    }
}

} // verus!
