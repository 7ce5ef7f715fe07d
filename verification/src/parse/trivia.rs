use vstd::prelude::*;

use crate::model::number::{decimal, push_decimal};
use crate::model::symbol::{push_chars, str_chars};
use crate::model::{Comment, CommentLine, NodeId};
use vstd::string::StringSliceAdditionalSpecFns;
use vstd::slice::{slice_subrange, slice_to_vec};
use vstd::utf8::{decode_utf8, encode_utf8_decode_utf8, valid_utf8};

use super::context::{newline_from, skip_space_bytes, starts_newline, IndentOpener};
use super::{ParseContext, ParseError};

verus! {

/// The byte length of the Unicode white-space character (`char::is_whitespace`)
/// that starts at `i` in UTF-8 text, or 0 where none does: tab, line feed,
/// vertical tab, form feed, carriage return, space, U+0085, U+00A0, U+1680,
/// U+2000 to U+200A, U+2028, U+2029, U+202F, U+205F and U+3000.
pub open spec fn ws_len_at(s: Seq<u8>, i: int) -> int {
    if !(0 <= i < s.len()) {
        0
    } else if (9 <= s[i] <= 13) || s[i] == 32 {
        1
    } else if i + 1 < s.len() && s[i] == 0xC2 && (s[i + 1] == 0x85 || s[i + 1] == 0xA0) {
        2
    } else if i + 2 < s.len() && (
        (s[i] == 0xE1 && s[i + 1] == 0x9A && s[i + 2] == 0x80)
        || (s[i] == 0xE2 && s[i + 1] == 0x80 && (0x80 <= s[i + 2] <= 0x8A || s[i + 2] == 0xA8 || s[i + 2] == 0xA9 || s[i + 2] == 0xAF))
        || (s[i] == 0xE2 && s[i + 1] == 0x81 && s[i + 2] == 0x9F)
        || (s[i] == 0xE3 && s[i + 1] == 0x80 && s[i + 2] == 0x80)
    ) {
        3
    } else {
        0
    }
}

/// The byte length of the white-space character that ends at `e` (not
/// before `lo`), or 0.
pub open spec fn ws_len_before(s: Seq<u8>, lo: int, e: int) -> int {
    if e - 1 >= lo && e - 1 >= 0 && e <= s.len() && ((9 <= s[e - 1] <= 13) || s[e - 1] == 32) {
        1
    } else if e - 2 >= lo && e - 2 >= 0 && e <= s.len() && ws_len_at(s, e - 2) == 2 {
        2
    } else if e - 3 >= lo && e - 3 >= 0 && e <= s.len() && ws_len_at(s, e - 3) == 3 {
        3
    } else {
        0
    }
}

/// The end of `s[lo..e]` without its trailing white space (`str::trim_end`).
pub open spec fn trim_ws_end(s: Seq<u8>, lo: int, e: int) -> int
    decreases e - lo,
{
    if e > lo && ws_len_before(s, lo, e) > 0 {
        trim_ws_end(s, lo, e - ws_len_before(s, lo, e))
    } else {
        e
    }
}

/// The end of `s[lo..e]` without its trailing `\r`s.
pub open spec fn trim_cr_end(s: Seq<u8>, lo: int, e: int) -> int
    decreases e - lo,
{
    if e > lo && s[e - 1] == 13 {
        trim_cr_end(s, lo, e - 1)
    } else {
        e
    }
}

/// The end of the run of white space other than `\n` from `i`.
pub open spec fn invalid_ws_end(s: Seq<u8>, i: int) -> int
    decreases s.len() - i,
{
    if 0 <= i < s.len() && s[i] != 10 && ws_len_at(s, i) > 0 {
        invalid_ws_end(s, i + ws_len_at(s, i))
    } else {
        i
    }
}

/// What `parse_trivia` carries from one line to the next.
#[derive(Debug, Clone, Copy, PartialEq, Eq, Structural)]
pub struct TriviaFlags {
    pub last_was_blank: bool,
    pub blank_reported: bool,
    pub last_was_comment: bool,
}

/// `e` is an error over `range` with `msg` and nothing more.
pub open spec fn err_is(e: ParseError, range: (usize, usize), msg: Seq<char>) -> bool {
    &&& e.consumed_range == range
    &&& e.message@ == msg
    &&& e.error_range is None
    &&& e.cause is None
}

/// `ns` is `os` with errors for `items` (range, message) appended.
pub open spec fn pushed(ns: Seq<ParseError>, os: Seq<ParseError>, items: Seq<((usize, usize), Seq<char>)>) -> bool {
    &&& ns.len() == os.len() + items.len()
    &&& ns.subrange(0, os.len() as int) == os
    &&& forall|k: int| #![trigger items[k]] 0 <= k < items.len() ==> err_is(ns[os.len() + k], items[k].0, items[k].1)
}

pub proof fn lemma_pushed_trans(
    a: Seq<ParseError>,
    b: Seq<ParseError>,
    c: Seq<ParseError>,
    x: Seq<((usize, usize), Seq<char>)>,
    y: Seq<((usize, usize), Seq<char>)>,
)
    requires
        pushed(b, a, x),
        pushed(c, b, y),
    ensures
        pushed(c, a, x + y),
{
    assert(c.subrange(0, a.len() as int) =~= b.subrange(0, a.len() as int)) by {
        assert forall|i: int| 0 <= i < a.len() implies c[i] == b[i] by {
            assert(c.subrange(0, b.len() as int)[i] == c[i]);
        }
    }
    assert forall|k: int| 0 <= k < (x + y).len() implies err_is(c[a.len() + k], (x + y)[k].0, (x + y)[k].1) by {
        if k < x.len() {
            assert(c.subrange(0, b.len() as int)[a.len() + k] == c[a.len() + k]);
            assert(x[k] == (x + y)[k]);
        } else {
            let j = k - x.len();
            assert(y[j] == (x + y)[k]);
        }
    }
}

/// What a trivia step never changes.
pub open spec fn trivia_frame(n: ParseContext, o: ParseContext) -> bool {
    &&& n.source == o.source
    &&& n.file_path == o.file_path
    &&& n.indent_stack == o.indent_stack
    &&& n.suppress_narrowing_postfix == o.suppress_narrowing_postfix
}

/// Nothing but the position and the reports changed.
pub open spec fn same_nodes(n: ParseContext, o: ParseContext) -> bool {
    &&& n.node_ranges == o.node_ranges
    &&& n.next_node_id == o.next_node_id
    &&& n.comments == o.comments
}

pub open spec fn spaces_message(expected: int, found: int) -> Seq<char> {
    "Expected "@ + decimal(expected as nat) + " spaces, found "@ + decimal(found as nat)
}

/// A line ending after `sc` spaces: trailing spaces and a second blank line
/// in a row are reported, the line length checked, and the next line begins.
pub open spec fn newline_step(o: ParseContext, n: ParseContext, fi: TriviaFlags, fo: TriviaFlags, p0: int, p2: int, sc: int, at_ls: bool) -> bool {
    let s = o.source@;
    let v_trailing: Seq<((usize, usize), Seq<char>)> = if sc > 0 {
        seq![((p0 as usize, p2 as usize), "Trailing whitespace"@)]
    } else {
        Seq::empty()
    };
    let v_blank: Seq<((usize, usize), Seq<char>)> = if at_ls && fi.last_was_blank && !fi.blank_reported {
        seq![((p2 as usize, (p2 + 1) as usize), "Multiple consecutive blank lines"@)]
    } else {
        Seq::empty()
    };
    let v_long: Seq<((usize, usize), Seq<char>)> = if super::context::line_too_long(s, o.line_start as int, p2) {
        seq![(((o.line_start + 120) as usize, (o.line_start + 121) as usize), "Line exceeds 120 characters"@)]
    } else {
        Seq::empty()
    };
    &&& pushed(n.strict_mode_violations@, o.strict_mode_violations@, v_trailing + v_blank + v_long)
    &&& n.parse_errors == o.parse_errors
    &&& same_nodes(n, o)
    &&& n.pos == p2 + 1
    &&& n.line_start == p2 + 1
    &&& fo == (if at_ls {
        TriviaFlags { last_was_blank: true, blank_reported: fi.blank_reported || fi.last_was_blank, last_was_comment: false }
    } else {
        TriviaFlags { last_was_blank: false, blank_reported: false, last_was_comment: fi.last_was_comment }
    })
    &&& n.trivia_had_blank_line == (o.trivia_had_blank_line || at_ls)
}

/// White space other than spaces and line endings: reported as an error and skipped.
pub open spec fn invalid_ws_step(o: ParseContext, n: ParseContext, fi: TriviaFlags, fo: TriviaFlags, p2: int) -> bool {
    let q = invalid_ws_end(o.source@, p2);
    &&& pushed(n.parse_errors@, o.parse_errors@, seq![((p2 as usize, q as usize), "Invalid whitespace characters"@)])
    &&& n.strict_mode_violations == o.strict_mode_violations
    &&& same_nodes(n, o)
    &&& n.pos == q
    &&& n.line_start == o.line_start
    &&& fo == fi
    &&& n.trivia_had_blank_line == o.trivia_had_blank_line
}

/// The end of the file after `sc` spaces: trailing spaces are reported.
pub open spec fn eof_step(o: ParseContext, n: ParseContext, fi: TriviaFlags, fo: TriviaFlags, p0: int, p2: int, sc: int) -> bool {
    &&& pushed(
        n.strict_mode_violations@,
        o.strict_mode_violations@,
        if sc > 0 {
            seq![((p0 as usize, p2 as usize), "Trailing whitespace at end of file"@)]
        } else {
            Seq::empty()
        },
    )
    &&& n.parse_errors == o.parse_errors
    &&& same_nodes(n, o)
    &&& n.pos == p2
    &&& n.line_start == o.line_start
    &&& fo == fi
    &&& n.trivia_had_blank_line == o.trivia_had_blank_line
}

/// The indentation a line that starts with byte `b` should have, and whether
/// a difference is reported: a closer of the innermost opener may stand one
/// level out; a closer of another opener is left to the caller.
pub open spec fn indent_report(o: ParseContext, b: u8, sc: int) -> (int, bool) {
    let indent = (o.indent_stack@.len() * 4) as int;
    let outer = if indent >= 4 { indent - 4 } else { 0 };
    let top = o.indent_stack@.last();
    let nonempty = o.indent_stack@.len() > 0;
    let is_closer = b == 125 || b == 93 || b == 41;
    let matches_top = nonempty && ((b == 125 && top == IndentOpener::Brace) || (b == 93 && top == IndentOpener::Bracket)
        || (b == 41 && top == IndentOpener::Paren));
    let expected = if matches_top && sc != indent { outer } else { indent };
    (expected, sc != expected && !(is_closer && !matches_top))
}

/// Content: a line's first content must sit at the expected indentation
/// (patch directives, `%`, have their own rule); trivia ends here.
pub open spec fn content_step(o: ParseContext, n: ParseContext, fi: TriviaFlags, fo: TriviaFlags, p0: int, p2: int, sc: int, at_ls: bool) -> bool {
    let s = o.source@;
    let (expected, report) = indent_report(o, s[p2], sc);
    let range = if sc == 0 {
        (p2 as usize, (if p2 + 1 <= s.len() { p2 + 1 } else { s.len() as int }) as usize)
    } else {
        (p0 as usize, p2 as usize)
    };
    &&& pushed(
        n.strict_mode_violations@,
        o.strict_mode_violations@,
        if at_ls && s[p2] != 37 && report {
            seq![(range, spaces_message(expected, sc))]
        } else {
            Seq::empty()
        },
    )
    &&& n.parse_errors == o.parse_errors
    &&& same_nodes(n, o)
    &&& n.pos == p2
    &&& n.line_start == o.line_start
    &&& fo == fi
    &&& n.trivia_had_blank_line == o.trivia_had_blank_line
}

/// A comment line: its position and the space after `#` are checked, its
/// text (without trailing white space) recorded with a node id, and it joins
/// the comment block of the line before or starts a new block.
pub open spec fn comment_step(o: ParseContext, n: ParseContext, fi: TriviaFlags, fo: TriviaFlags, p0: int, p2: int, sc: int, at_ls: bool) -> bool {
    let s = o.source@;
    let len = s.len() as int;
    let indent = (o.indent_stack@.len() * 4) as int;
    let v1: Seq<((usize, usize), Seq<char>)> = if !at_ls {
        seq![((p2 as usize, (p2 + 1) as usize), "Comment must be on its own line"@)]
    } else {
        Seq::empty()
    };
    let v2: Seq<((usize, usize), Seq<char>)> = if at_ls && sc != indent {
        seq![(if sc == 0 { (p2 as usize, (p2 + 1) as usize) } else { (p0 as usize, p2 as usize) }, spaces_message(indent, sc))]
    } else {
        Seq::empty()
    };
    let p3 = p2 + 1;
    let after_hash = p3 < len && !starts_newline(s.subrange(p3, len));
    let has_space = after_hash && s[p3] == 32;
    let v3: Seq<((usize, usize), Seq<char>)> = if after_hash && !has_space {
        seq![((p2 as usize, (p2 + 1) as usize), "Space required after '#'"@)]
    } else {
        Seq::empty()
    };
    let p4 = if has_space { p3 + 1 } else { p3 };
    let q = newline_from(s, p4);
    let e1 = trim_cr_end(s, p4, q);
    let e2 = trim_ws_end(s, p4, e1);
    let v4: Seq<((usize, usize), Seq<char>)> = if e2 < e1 {
        seq![((e2 as usize, e1 as usize), "Trailing whitespace"@)]
    } else {
        Seq::empty()
    };
    let line_id = o.next_node_id;
    let text = s.subrange(p4, e2);
    let line_ok = |l: CommentLine| l.node_id == NodeId(line_id) && (valid_utf8(text) ==> l.text@ == decode_utf8(text));
    &&& pushed(n.strict_mode_violations@, o.strict_mode_violations@, v1 + v2 + v3 + v4)
    &&& n.parse_errors == o.parse_errors
    &&& n.pos == q
    &&& n.line_start == o.line_start
    &&& fo == (TriviaFlags { last_was_blank: false, blank_reported: false, last_was_comment: true })
    &&& n.trivia_had_blank_line == o.trivia_had_blank_line
    &&& if fi.last_was_comment {
        &&& n.next_node_id == o.next_node_id + 1
        &&& if o.comments@.len() > 0 {
            let last = o.comments@.last();
            let grown = o.node_ranges@.push((p2 as usize, q as usize));
            &&& n.node_ranges@ == (if (last.node_id.0 as int) < grown.len() {
                grown.update(last.node_id.0 as int, (grown[last.node_id.0 as int].0, q as usize))
            } else {
                grown
            })
            &&& n.comments@.len() == o.comments@.len()
            &&& n.comments@.drop_last() == o.comments@.drop_last()
            &&& n.comments@.last().node_id == last.node_id
            &&& n.comments@.last().lines@.len() == last.lines@.len() + 1
            &&& n.comments@.last().lines@.drop_last() == last.lines@
            &&& line_ok(n.comments@.last().lines@.last())
        } else {
            &&& n.node_ranges@ == o.node_ranges@.push((p2 as usize, q as usize))
            &&& n.comments == o.comments
        }
    } else {
        &&& n.next_node_id == o.next_node_id + 2
        &&& n.node_ranges@ == o.node_ranges@.push((p2 as usize, q as usize)).push((p2 as usize, q as usize))
        &&& n.comments@.len() == o.comments@.len() + 1
        &&& n.comments@.drop_last() == o.comments@
        &&& n.comments@.last().node_id == NodeId((line_id + 1) as u32)
        &&& n.comments@.last().lines@.len() == 1
        &&& line_ok(n.comments@.last().lines@[0])
    }
}

/// One step of `parse_trivia`, from the position `o.pos`: spaces, then (a
/// `\r` before a `\n` being skipped) a line ending, other white space, the
/// end of the file, a comment, or content. `cont` tells whether trivia goes on.
pub open spec fn trivia_step(o: ParseContext, n: ParseContext, fi: TriviaFlags, fo: TriviaFlags, cont: bool) -> bool {
    let s = o.source@;
    let len = s.len() as int;
    let p0 = o.pos as int;
    let at_ls = p0 == 0 || s[p0 - 1] == 10;
    let p1 = skip_space_bytes(s, p0, len);
    let sc = p1 - p0;
    let p2 = if p1 + 1 < len && s[p1] == 13 && s[p1 + 1] == 10 { p1 + 1 } else { p1 };
    &&& trivia_frame(n, o)
    &&& if p2 < len && s[p2] == 10 {
        cont && newline_step(o, n, fi, fo, p0, p2, sc, at_ls)
    } else if p2 < len && ws_len_at(s, p2) > 0 {
        cont && invalid_ws_step(o, n, fi, fo, p2)
    } else if p2 >= len {
        !cont && eof_step(o, n, fi, fo, p0, p2, sc)
    } else if s[p2] == 35 {
        cont && comment_step(o, n, fi, fo, p0, p2, sc, at_ls)
    } else {
        !cont && content_step(o, n, fi, fo, p0, p2, sc, at_ls)
    }
}

/// The text of UTF-8 bytes.
#[verifier::external_body]
pub(crate) fn str_of_utf8(v: &[u8]) -> (r: Option<&str>)
    ensures
        match r {
            Some(s) => s.spec_bytes() == v@,
            None => !valid_utf8(v@),
        },
{
    std::str::from_utf8(v).ok()
}

proof fn lemma_invalid_ws_end_ge(s: Seq<u8>, i: int)
    ensures
        invalid_ws_end(s, i) >= i,
    decreases s.len() - i,
{
    if 0 <= i < s.len() && s[i] != 10 && ws_len_at(s, i) > 0 {
        lemma_invalid_ws_end_ge(s, i + ws_len_at(s, i));
    }
}

proof fn lemma_pushed_none(a: Seq<ParseError>)
    ensures
        pushed(a, a, Seq::empty()),
{
    assert(a.subrange(0, a.len() as int) =~= a);
}

proof fn lemma_pushed_one(a: Seq<ParseError>, e: ParseError, item: ((usize, usize), Seq<char>))
    requires
        err_is(e, item.0, item.1),
    ensures
        pushed(a.push(e), a, seq![item]),
{
    assert(a.push(e).subrange(0, a.len() as int) =~= a);
    assert(seq![item][0] == item);
}

/// Where the step's positions come from: `p0` the position, `sc` spaces
/// after it, `p2` past them (and past a `\r` before `\n`).
pub open spec fn step_positions(o: ParseContext, p0: int, p2: int, sc: int, at_ls: bool) -> bool {
    let s = o.source@;
    let len = s.len() as int;
    let p1 = skip_space_bytes(s, p0, len);
    &&& p0 == o.pos
    &&& at_ls == (p0 == 0 || s[p0 - 1] == 10)
    &&& sc == p1 - p0
    &&& p2 == (if p1 + 1 < len && s[p1] == 13 && s[p1 + 1] == 10 { p1 + 1 } else { p1 })
    &&& p0 <= p1 <= p2 <= len
}

impl ParseContext {
    /// A line ending at the position (see `newline_step`).
    fn trivia_newline(&mut self, Ghost(o): Ghost<ParseContext>, fi: TriviaFlags, p0: usize, p2: usize, sc: usize, at_ls: bool) -> (fo: TriviaFlags)
        requires
            o.wf(),
            old(self).wf(),
            step_positions(o, p0 as int, p2 as int, sc as int, at_ls),
            old(self).same_but_pos(&o),
            old(self).pos == p2,
            o.line_start <= p0,
            p2 < o.source@.len(),
            o.source@[p2 as int] == 10,
        ensures
            final(self).wf(),
            newline_step(o, *final(self), fi, fo, p0 as int, p2 as int, sc as int, at_ls),
            trivia_frame(*final(self), o),
    {
        let ghost s0 = self.strict_mode_violations@;
        let ghost v_trailing: Seq<((usize, usize), Seq<char>)> = if sc > 0 {
            seq![((p0, p2), "Trailing whitespace"@)]
        } else {
            Seq::empty()
        };
        if sc > 0 {
            let e = ParseError::new((p0, p2), str_chars("Trailing whitespace"));
            proof { lemma_pushed_one(self.strict_mode_violations@, e, ((p0, p2), "Trailing whitespace"@)); }
            self.add_strict_violation(e);
        } else {
            proof { lemma_pushed_none(self.strict_mode_violations@); }
        }
        let ghost s1 = self.strict_mode_violations@;
        let ghost v_blank: Seq<((usize, usize), Seq<char>)> = if at_ls && fi.last_was_blank && !fi.blank_reported {
            seq![((p2, (p2 + 1) as usize), "Multiple consecutive blank lines"@)]
        } else {
            Seq::empty()
        };
        let mut fo = fi;
        if at_ls {
            fo.last_was_comment = false;
            if fi.last_was_blank && !fi.blank_reported {
                let e = ParseError::new((p2, p2 + 1), str_chars("Multiple consecutive blank lines"));
                proof { lemma_pushed_one(self.strict_mode_violations@, e, ((p2, (p2 + 1) as usize), "Multiple consecutive blank lines"@)); }
                self.add_strict_violation(e);
                fo.blank_reported = true;
            } else {
                proof { lemma_pushed_none(self.strict_mode_violations@); }
            }
            fo.last_was_blank = true;
            self.trivia_had_blank_line = true;
        } else {
            proof { lemma_pushed_none(self.strict_mode_violations@); }
            fo.last_was_blank = false;
            fo.blank_reported = false;
        }
        let ghost s2 = self.strict_mode_violations@;
        proof { lemma_pushed_trans(s0, s1, s2, v_trailing, v_blank); }
        self.on_newline();
        let ghost s3 = self.strict_mode_violations@;
        let ghost v_long: Seq<((usize, usize), Seq<char>)> = if super::context::line_too_long(o.source@, o.line_start as int, p2 as int) {
            seq![(((o.line_start + 120) as usize, (o.line_start + 121) as usize), "Line exceeds 120 characters"@)]
        } else {
            Seq::empty()
        };
        proof {
            if super::context::line_too_long(o.source@, o.line_start as int, p2 as int) {
                assert(s3 == s2.push(s3.last()));
                lemma_pushed_one(s2, s3.last(), (((o.line_start + 120) as usize, (o.line_start + 121) as usize), "Line exceeds 120 characters"@));
            } else {
                lemma_pushed_none(s2);
            }
            lemma_pushed_trans(s0, s2, s3, v_trailing + v_blank, v_long);
        }
        self.pos = p2 + 1;
        fo
    }

    /// White space other than spaces and line endings at the position (see `invalid_ws_step`).
    fn trivia_invalid_ws(&mut self, Ghost(o): Ghost<ParseContext>, Ghost(fi): Ghost<TriviaFlags>, p2: usize)
        requires
            old(self).wf(),
            old(self).same_but_pos(&o),
            old(self).pos == p2,
            p2 < o.source@.len(),
            o.source@[p2 as int] != 10,
            ws_len_at(o.source@, p2 as int) > 0,
        ensures
            final(self).wf(),
            invalid_ws_step(o, *final(self), fi, fi, p2 as int),
            trivia_frame(*final(self), o),
            final(self).pos > p2,
    {
        let q = self.invalid_ws(p2);
        proof { lemma_invalid_ws_end_ge(o.source@, p2 + ws_len_at(o.source@, p2 as int)); }
        let e = ParseError::new((p2, q), str_chars("Invalid whitespace characters"));
        proof { lemma_pushed_one(self.parse_errors@, e, ((p2, q), "Invalid whitespace characters"@)); }
        self.add_parse_error(e);
        self.pos = q;
    }
}

/// The text of `spaces_message`.
fn spaces_msg(expected: usize, found: usize) -> (r: Vec<char>)
    ensures
        r@ == spaces_message(expected as int, found as int),
{
    let mut m = str_chars("Expected ");
    push_decimal(&mut m, expected);
    let tail = str_chars(" spaces, found ");
    push_chars(&mut m, tail.as_slice());
    push_decimal(&mut m, found);
    m
}

impl ParseContext {
    /// The end of the file at the position (see `eof_step`).
    fn trivia_eof(&mut self, Ghost(o): Ghost<ParseContext>, Ghost(fi): Ghost<TriviaFlags>, p0: usize, p2: usize, sc: usize)
        requires
            old(self).wf(),
            old(self).same_but_pos(&o),
            old(self).pos == p2,
            p0 <= p2,
        ensures
            final(self).wf(),
            eof_step(o, *final(self), fi, fi, p0 as int, p2 as int, sc as int),
            trivia_frame(*final(self), o),
    {
        if sc > 0 {
            let e = ParseError::new((p0, p2), str_chars("Trailing whitespace at end of file"));
            proof { lemma_pushed_one(self.strict_mode_violations@, e, ((p0, p2), "Trailing whitespace at end of file"@)); }
            self.add_strict_violation(e);
        } else {
            proof { lemma_pushed_none(self.strict_mode_violations@); }
        }
    }

    /// Content at the position (see `content_step`).
    fn trivia_content(&mut self, Ghost(o): Ghost<ParseContext>, Ghost(fi): Ghost<TriviaFlags>, p0: usize, p2: usize, sc: usize, at_ls: bool)
        requires
            old(self).wf(),
            old(self).same_but_pos(&o),
            old(self).pos == p2,
            p0 <= p2 < o.source@.len(),
            o.indent_stack@.len() * 4 < usize::MAX,
        ensures
            final(self).wf(),
            content_step(o, *final(self), fi, fi, p0 as int, p2 as int, sc as int, at_ls),
            trivia_frame(*final(self), o),
    {
        let b = self.source[p2];
        let ghost (expected_s, report_s) = indent_report(o, b, sc as int);
        if at_ls && b != 37u8 {
            let indent = self.current_indent();
            let outer = if indent >= 4 { indent - 4 } else { 0 };
            let n = self.indent_stack.len();
            let is_closer = b == 125u8 || b == 93u8 || b == 41u8;
            let matches_top = n > 0 && ((b == 125u8 && self.indent_stack[n - 1] == IndentOpener::Brace)
                || (b == 93u8 && self.indent_stack[n - 1] == IndentOpener::Bracket)
                || (b == 41u8 && self.indent_stack[n - 1] == IndentOpener::Paren));
            let expected = if matches_top && sc != indent { outer } else { indent };
            assert(expected == expected_s);
            if sc != expected && !(is_closer && !matches_top) {
                let range = if sc == 0 {
                    (p2, if p2 + 1 <= self.source.len() { p2 + 1 } else { self.source.len() })
                } else {
                    (p0, p2)
                };
                let e = ParseError::new(range, spaces_msg(expected, sc));
                proof { lemma_pushed_one(self.strict_mode_violations@, e, (range, spaces_message(expected as int, sc as int))); }
                self.add_strict_violation(e);
                return;
            }
        }
        proof { lemma_pushed_none(self.strict_mode_violations@); }
    }
}

impl ParseContext {
    /// The text of the bytes `p4..e2` of the source, where they are UTF-8.
    fn comment_text(&self, p4: usize, e2: usize) -> (r: Vec<char>)
        requires
            self.wf(),
            p4 <= e2 <= self.source@.len(),
        ensures
            valid_utf8(self.source@.subrange(p4 as int, e2 as int)) ==> r@ == decode_utf8(self.source@.subrange(p4 as int, e2 as int)),
    {
        let bytes = slice_subrange(self.source.as_slice(), p4, e2);
        match str_of_utf8(bytes) {
            Some(st) => {
                proof { encode_utf8_decode_utf8(st@); }
                str_chars(st)
            },
            None => Vec::new(),
        }
    }

    /// A comment at the position (see `comment_step`).
    #[verifier::rlimit(60)]
    #[verifier::spinoff_prover]
    fn trivia_comment(&mut self, Ghost(o): Ghost<ParseContext>, fi: TriviaFlags, p0: usize, p2: usize, sc: usize, at_ls: bool)
        requires
            old(self).wf(),
            old(self).same_but_pos(&o),
            old(self).pos == p2,
            p0 <= p2 < o.source@.len(),
            o.source@[p2 as int] == 35,
            o.indent_stack@.len() * 4 < usize::MAX,
            o.next_node_id + 2 < u32::MAX,
        ensures
            final(self).wf(),
            comment_step(o, *final(self), fi, (TriviaFlags { last_was_blank: false, blank_reported: false, last_was_comment: true }), p0 as int, p2 as int, sc as int, at_ls),
            trivia_frame(*final(self), o),
            final(self).pos > p2,
    {
        let ghost s = o.source@;
        let ghost len = s.len() as int;
        let ghost s0 = self.strict_mode_violations@;
        let n = self.source.len();
        let indent = self.current_indent();
        let ghost v1: Seq<((usize, usize), Seq<char>)> = if !at_ls {
            seq![((p2, (p2 + 1) as usize), "Comment must be on its own line"@)]
        } else {
            Seq::empty()
        };
        if !at_ls {
            let e = ParseError::new((p2, p2 + 1), str_chars("Comment must be on its own line"));
            proof { lemma_pushed_one(self.strict_mode_violations@, e, ((p2, (p2 + 1) as usize), "Comment must be on its own line"@)); }
            self.add_strict_violation(e);
        } else {
            proof { lemma_pushed_none(self.strict_mode_violations@); }
        }
        let ghost s1 = self.strict_mode_violations@;
        let ghost v2: Seq<((usize, usize), Seq<char>)> = if at_ls && sc != indent {
            seq![(if sc == 0 { (p2, (p2 + 1) as usize) } else { (p0, p2) }, spaces_message(indent as int, sc as int))]
        } else {
            Seq::empty()
        };
        if at_ls && sc != indent {
            let range = if sc == 0 { (p2, p2 + 1) } else { (p0, p2) };
            let e = ParseError::new(range, spaces_msg(indent, sc));
            proof { lemma_pushed_one(self.strict_mode_violations@, e, (range, spaces_message(indent as int, sc as int))); }
            self.add_strict_violation(e);
        } else {
            proof { lemma_pushed_none(self.strict_mode_violations@); }
        }
        let ghost s2 = self.strict_mode_violations@;
        proof { lemma_pushed_trans(s0, s1, s2, v1, v2); }
        let p3 = p2 + 1;
        self.pos = p3;
        let after_hash = p3 < n && !self.is_at_newline();
        let has_space = after_hash && self.source[p3] == 32u8;
        proof {
            assert(self.rest() =~= s.subrange(p3 as int, len));
        }
        let ghost v3: Seq<((usize, usize), Seq<char>)> = if after_hash && !has_space {
            seq![((p2, (p2 + 1) as usize), "Space required after '#'"@)]
        } else {
            Seq::empty()
        };
        if after_hash && !has_space {
            let e = ParseError::new((p2, p2 + 1), str_chars("Space required after '#'"));
            proof { lemma_pushed_one(self.strict_mode_violations@, e, ((p2, (p2 + 1) as usize), "Space required after '#'"@)); }
            self.add_strict_violation(e);
        } else {
            proof { lemma_pushed_none(self.strict_mode_violations@); }
        }
        let ghost s3 = self.strict_mode_violations@;
        proof { lemma_pushed_trans(s0, s2, s3, v1 + v2, v3); }
        let p4 = if has_space { p3 + 1 } else { p3 };
        let mut q = p4;
        while q < n && self.source[q] != 10u8
            invariant
                self.wf(),
                n == self.source@.len(),
                self.source@ == s,
                p4 <= q <= n,
                newline_from(s, p4 as int) == newline_from(s, q as int),
            decreases n - q,
        {
            q = q + 1;
        }
        let e1 = self.trim_cr(p4, q);
        let e2 = self.trim_ws(p4, e1);
        let ghost v4: Seq<((usize, usize), Seq<char>)> = if e2 < e1 {
            seq![((e2, e1), "Trailing whitespace"@)]
        } else {
            Seq::empty()
        };
        if e2 < e1 {
            let e = ParseError::new((e2, e1), str_chars("Trailing whitespace"));
            proof { lemma_pushed_one(self.strict_mode_violations@, e, ((e2, e1), "Trailing whitespace"@)); }
            self.add_strict_violation(e);
        } else {
            proof { lemma_pushed_none(self.strict_mode_violations@); }
        }
        let ghost s4 = self.strict_mode_violations@;
        proof { lemma_pushed_trans(s0, s3, s4, v1 + v2 + v3, v4); }
        let text = self.comment_text(p4, e2);
        self.pos = q;
        let line_id = self.alloc_node_id(p2, q);
        let line = CommentLine { node_id: line_id, text };
        if fi.last_was_comment {
            let nc = self.comments.len();
            if nc > 0 {
                let mut last = self.comments.pop().unwrap();
                let lid = last.node_id.0 as usize;
                if lid < self.node_ranges.len() {
                    let start = self.node_ranges[lid].0;
                    self.node_ranges.set(lid, (start, q));
                }
                let ghost before = last;
                last.lines.push(line);
                self.comments.push(last);
                proof {
                    assert(self.comments@.drop_last() =~= o.comments@.drop_last());
                    assert(self.comments@.last().lines@.drop_last() =~= before.lines@);
                    assert(before == o.comments@.last());
                }
            }
        } else {
            let bid = self.alloc_node_id(p2, q);
            self.comments.push(Comment { node_id: bid, lines: vec![line] });
            proof {
                assert(self.comments@.drop_last() =~= o.comments@);
            }
        }
        let ghost len_ = len;
        let ghost p3i = p2 + 1;
        let ghost ah = p3i < len_ && !starts_newline(s.subrange(p3i, len_));
        assert(after_hash == ah);
        assert(has_space == (ah && s[p3i] == 32));
        assert(e1 == trim_cr_end(s, p4 as int, q as int));
        assert(e2 == trim_ws_end(s, p4 as int, e1 as int));
        assert(self.next_node_id == o.next_node_id + (if fi.last_was_comment { 1int } else { 2 }));
        assert(pushed(self.strict_mode_violations@, o.strict_mode_violations@, v1 + v2 + v3 + v4));
        assert(p4 == (if has_space { p3 + 1 } else { p3 as int }));
        assert(q == newline_from(s, p4 as int));
        assert(self.pos == q);
        assert(self.parse_errors == o.parse_errors);
        assert(self.line_start == o.line_start);
        assert(self.trivia_had_blank_line == o.trivia_had_blank_line);
    }
}

/// How many `#` bytes `s` holds from `i` on.
pub open spec fn hash_count(s: Seq<u8>, i: int) -> nat
    decreases s.len() - i,
{
    if 0 <= i < s.len() {
        (if s[i] == 35 { 1nat } else { 0nat }) + hash_count(s, i + 1)
    } else {
        0
    }
}

pub proof fn lemma_hash_count_mono(s: Seq<u8>, i: int, j: int)
    requires
        0 <= i <= j,
    ensures
        hash_count(s, j) <= hash_count(s, i),
    decreases j - i,
{
    if i < j {
        lemma_hash_count_mono(s, i + 1, j);
    }
}

/// The context `o` with the blank-line flag cleared, as trivia starts.
pub open spec fn trivia_start(o: ParseContext) -> ParseContext {
    ParseContext { trivia_had_blank_line: false, ..o }
}

/// `cs` and `fs` are the contexts and flags of a run of trivia steps that
/// goes on at every step but the last.
pub open spec fn trivia_run(cs: Seq<ParseContext>, fs: Seq<TriviaFlags>) -> bool {
    &&& cs.len() >= 2
    &&& fs.len() == cs.len()
    &&& forall|k: int| #![trigger cs[k]] 0 <= k < cs.len() - 1 ==> trivia_step(cs[k], cs[k + 1], fs[k], fs[k + 1], k + 2 < cs.len())
}

impl ParseContext {
    /// One step of trivia from the position (see `trivia_step`): the flags
    /// after it, and whether trivia goes on.
    #[verifier::rlimit(30)]
    fn trivia_one(&mut self, fi: TriviaFlags) -> (r: (TriviaFlags, bool))
        requires
            old(self).wf(),
            old(self).line_start <= old(self).pos,
            old(self).indent_stack@.len() * 4 < usize::MAX,
            old(self).next_node_id + 2 < u32::MAX,
        ensures
            final(self).wf(),
            trivia_step(*old(self), *final(self), fi, r.0, r.1),
            final(self).line_start <= final(self).pos,
            r.1 ==> final(self).pos > old(self).pos,
            final(self).pos >= old(self).pos,
            final(self).next_node_id + 2 * hash_count(final(self).source@, final(self).pos as int)
                <= old(self).next_node_id + 2 * hash_count(old(self).source@, old(self).pos as int),
    {
        let ghost o = *self;
        let ghost s = o.source@;
        let ghost len = s.len() as int;
        let n = self.source.len();
        let p0 = self.pos;
        let at_ls = p0 == 0 || self.source[p0 - 1] == 10u8;
        let mut p1 = p0;
        while p1 < n && self.source[p1] == 32u8
            invariant
                self.wf(),
                *self == o,
                self.source@ == s,
                s.len() == len,
                n == len,
                p0 <= p1 <= n,
                skip_space_bytes(s, p0 as int, len) == skip_space_bytes(s, p1 as int, len),
            decreases n - p1,
        {
            p1 = p1 + 1;
        }
        let sc = p1 - p0;
        let p2 = if p1 + 1 < n && self.source[p1] == 13u8 && self.source[p1 + 1] == 10u8 {
            p1 + 1
        } else {
            p1
        };
        self.pos = p2;
        proof {
            lemma_hash_count_mono(s, p0 as int, p2 as int);
            lemma_hash_count_mono(s, p2 + 1, len + 1);
        }
        let r = if p2 < n && self.source[p2] == 10u8 {
            let fo = self.trivia_newline(Ghost(o), fi, p0, p2, sc, at_ls);
            (fo, true)
        } else if p2 < n && self.ws_len(p2) > 0 {
            self.trivia_invalid_ws(Ghost(o), Ghost(fi), p2);
            (fi, true)
        } else if p2 >= n {
            self.trivia_eof(Ghost(o), Ghost(fi), p0, p2, sc);
            (fi, false)
        } else if self.source[p2] == 35u8 {
            self.trivia_comment(Ghost(o), fi, p0, p2, sc, at_ls);
            proof { lemma_hash_count_mono(s, p2 + 1, self.pos as int); }
            (TriviaFlags { last_was_blank: false, blank_reported: false, last_was_comment: true }, true)
        } else {
            self.trivia_content(Ghost(o), Ghost(fi), p0, p2, sc, at_ls);
            (fi, false)
        };
        proof {
            lemma_hash_count_mono(s, p0 as int, self.pos as int);
            if p2 < len {
                assert(hash_count(s, p2 as int) == (if s[p2 as int] == 35 { 1nat } else { 0nat }) + hash_count(s, p2 + 1));
            }
        }
        r
    }
}

/// `n` is what trivia from `o` leaves: the end of a run of trivia steps
/// from `o` (with the blank-line flag cleared) and no flags set.
#[verifier::opaque]
pub open spec fn trivia_result(o: ParseContext, n: ParseContext) -> bool {
    exists|cs: Seq<ParseContext>, fs: Seq<TriviaFlags>| {
        &&& trivia_run(cs, fs)
        &&& cs[0] == trivia_start(o)
        &&& fs[0] == (TriviaFlags { last_was_blank: false, blank_reported: false, last_was_comment: false })
        &&& cs.last() == n
    }
}

impl ParseContext {
    /// Skip the trivia at the position: spaces, blank lines and comment
    /// lines, checking in strict mode the layout rules (no trailing white
    /// space, no two blank lines in a row, comments on their own line with a
    /// space after `#`, indentation of four spaces a level) and recording the
    /// comments; white space other than spaces and line endings is an error.
    /// Stops at content or at the end of the file, and gives the bytes skipped.
    pub fn parse_trivia(&mut self) -> (r: Vec<u8>)
        requires
            old(self).wf(),
            old(self).line_start <= old(self).pos,
            old(self).indent_stack@.len() * 4 < usize::MAX,
            old(self).next_node_id + 2 * hash_count(old(self).source@, old(self).pos as int) + 2 < u32::MAX,
        ensures
            final(self).wf(),
            trivia_result(*old(self), *final(self)),
            old(self).pos <= final(self).pos,
            r@ == old(self).source@.subrange(old(self).pos as int, final(self).pos as int),
            final(self).source == old(self).source,
            final(self).indent_stack == old(self).indent_stack,
            final(self).line_start <= final(self).pos,
            final(self).next_node_id + 2 * hash_count(final(self).source@, final(self).pos as int)
                <= old(self).next_node_id + 2 * hash_count(old(self).source@, old(self).pos as int),
    {
        proof {
            reveal(trivia_result);
        }
        let start = self.pos;
        self.trivia_had_blank_line = false;
        let ghost c0 = *self;
        let mut f = TriviaFlags { last_was_blank: false, blank_reported: false, last_was_comment: false };
        let ghost mut cs: Seq<ParseContext> = seq![c0];
        let ghost mut fs: Seq<TriviaFlags> = seq![f];
        loop
            invariant_except_break
                forall|k: int| #![trigger cs[k]] 0 <= k < cs.len() - 1 ==> trivia_step(cs[k], cs[k + 1], fs[k], fs[k + 1], true),
            invariant
                self.wf(),
                self.line_start <= self.pos,
                self.source == c0.source,
                self.indent_stack == c0.indent_stack,
                c0.indent_stack@.len() * 4 < usize::MAX,
                c0 == trivia_start(*old(self)),
                start == c0.pos,
                start <= self.pos,
                self.next_node_id + 2 * hash_count(self.source@, self.pos as int)
                    <= old(self).next_node_id + 2 * hash_count(old(self).source@, old(self).pos as int),
                old(self).next_node_id + 2 * hash_count(old(self).source@, old(self).pos as int) + 2 < u32::MAX,
                cs.len() >= 1,
                fs.len() == cs.len(),
                cs[0] == c0,
                fs[0] == (TriviaFlags { last_was_blank: false, blank_reported: false, last_was_comment: false }),
                cs.last() == *self,
                fs.last() == f,
            ensures
                self.wf(),
                self.source == c0.source,
                self.indent_stack == c0.indent_stack,
                self.line_start <= self.pos,
                self.next_node_id + 2 * hash_count(self.source@, self.pos as int)
                    <= old(self).next_node_id + 2 * hash_count(old(self).source@, old(self).pos as int),
                start <= self.pos,
                trivia_run(cs, fs),
                cs[0] == c0,
                fs[0] == (TriviaFlags { last_was_blank: false, blank_reported: false, last_was_comment: false }),
                cs.last() == *self,
            decreases self.source@.len() - self.pos,
        {
            let ghost before = *self;
            let (f2, cont) = self.trivia_one(f);
            proof {
                cs = cs.push(*self);
                fs = fs.push(f2);
                assert forall|k: int| #![trigger cs[k]] 0 <= k < cs.len() - 1 implies trivia_step(cs[k], cs[k + 1], fs[k], fs[k + 1], k + 2 < cs.len() || cont) by {
                    if k < cs.len() - 2 {
                        assert(cs[k] == cs.drop_last()[k]);
                    }
                }
            }
            f = f2;
            if !cont {
                break;
            }
        }
        slice_to_vec(slice_subrange(self.source.as_slice(), start, self.pos))
    }
}

impl ParseContext {
    /// `ws_len_at`, computed.
    fn ws_len(&self, i: usize) -> (r: usize)
        requires
            self.wf(),
        ensures
            r == ws_len_at(self.source@, i as int),
    {
        let s = &self.source;
        let n = s.len();
        if i >= n {
            return 0;
        }
        let b = s[i];
        if (9u8 <= b && b <= 13u8) || b == 32u8 {
            1
        } else if i + 1 < n && b == 0xC2u8 && (s[i + 1] == 0x85u8 || s[i + 1] == 0xA0u8) {
            2
        } else if i + 2 < n && ((b == 0xE1u8 && s[i + 1] == 0x9Au8 && s[i + 2] == 0x80u8) || (b == 0xE2u8
            && s[i + 1] == 0x80u8 && ((0x80u8 <= s[i + 2] && s[i + 2] <= 0x8Au8) || s[i + 2] == 0xA8u8
            || s[i + 2] == 0xA9u8 || s[i + 2] == 0xAFu8)) || (b == 0xE2u8 && s[i + 1] == 0x81u8 && s[i
            + 2] == 0x9Fu8) || (b == 0xE3u8 && s[i + 1] == 0x80u8 && s[i + 2] == 0x80u8)) {
            3
        } else {
            0
        }
    }

    /// `ws_len_before`, computed.
    fn ws_len_back(&self, lo: usize, e: usize) -> (r: usize)
        requires
            self.wf(),
            lo <= e <= self.source@.len(),
        ensures
            r == ws_len_before(self.source@, lo as int, e as int),
    {
        let s = &self.source;
        if e >= lo + 1 && ((9u8 <= s[e - 1] && s[e - 1] <= 13u8) || s[e - 1] == 32u8) {
            1
        } else if e >= lo + 2 && self.ws_len(e - 2) == 2 {
            2
        } else if e >= lo + 3 && self.ws_len(e - 3) == 3 {
            3
        } else {
            0
        }
    }

    /// `trim_ws_end`, computed.
    fn trim_ws(&self, lo: usize, e: usize) -> (r: usize)
        requires
            self.wf(),
            lo <= e <= self.source@.len(),
        ensures
            r == trim_ws_end(self.source@, lo as int, e as int),
            lo <= r <= e,
    {
        let mut k = e;
        while k > lo && self.ws_len_back(lo, k) > 0
            invariant
                self.wf(),
                lo <= k <= e <= self.source@.len(),
                trim_ws_end(self.source@, lo as int, e as int) == trim_ws_end(self.source@, lo as int, k as int),
            decreases k,
        {
            k = k - self.ws_len_back(lo, k);
        }
        k
    }

    /// `trim_cr_end`, computed.
    fn trim_cr(&self, lo: usize, e: usize) -> (r: usize)
        requires
            self.wf(),
            lo <= e <= self.source@.len(),
        ensures
            r == trim_cr_end(self.source@, lo as int, e as int),
            lo <= r <= e,
    {
        let mut k = e;
        while k > lo && self.source[k - 1] == 13u8
            invariant
                self.wf(),
                lo <= k <= e <= self.source@.len(),
                trim_cr_end(self.source@, lo as int, e as int) == trim_cr_end(self.source@, lo as int, k as int),
            decreases k,
        {
            k = k - 1;
        }
        k
    }

    /// `invalid_ws_end`, computed.
    fn invalid_ws(&self, i: usize) -> (r: usize)
        requires
            self.wf(),
            i <= self.source@.len(),
        ensures
            r == invalid_ws_end(self.source@, i as int),
            i <= r <= self.source@.len(),
    {
        let mut k = i;
        while k < self.source.len() && self.source[k] != 10u8 && self.ws_len(k) > 0
            invariant
                self.wf(),
                i <= k <= self.source@.len(),
                invalid_ws_end(self.source@, i as int) == invalid_ws_end(self.source@, k as int),
            decreases self.source@.len() - k,
        {
            k = k + self.ws_len(k);
        }
        k
    }
}

} // verus!
