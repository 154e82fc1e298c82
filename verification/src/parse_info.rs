//! The byte cursor of the first Raven parser: it reads a source buffer past whitespace and
//! comments, collecting errors as it goes.
//!
//! The cursor's behaviour is stated over `Cursor` (its index, line and line start as
//! mathematical values) and the buffer as a `Seq<u8>`. A spec function gives the result of
//! each move, or `None` where the move cannot be made (a read past the buffer, or a `//`
//! comment, which the move would re-enter without end).
use vstd::prelude::*;
use vstd::string::StringSliceAdditionalSpecFns;
use vstd::utf8::{decode_utf8, valid_utf8};

use crate::text::{lossy_string, push_char, utf8_lossy};
use vstd::string::StringExecFns;

verus! {

/// The longest buffer the cursor accepts: the largest length for which every index the
/// cursor reaches, every line number and every column fits the `u32` positions it reports
/// and the `usize` of a 32-bit machine.
pub const MAX_PARSE_LEN: usize = 0xffff_fffc;

/// An error found while parsing, with where it was found.
#[derive(Clone, Debug)]
pub struct ParseError {
    /// The line number
    pub row: u32,
    /// The column in the line
    pub column: u64,
    /// The text of the line
    pub line: String,
    /// The message
    pub error: String,
}

/// An error as values: line number, column, line text and message.
pub struct ParseErrorView {
    pub row: u32,
    pub column: u64,
    pub line: Seq<char>,
    pub error: Seq<char>,
}

impl View for ParseError {
    type V = ParseErrorView;

    open spec fn view(&self) -> ParseErrorView {
        ParseErrorView { row: self.row, column: self.column, line: self.line@, error: self.error@ }
    }
}

/// The decimal digits of a number, most significant first.
pub open spec fn decimal_text(n: nat) -> Seq<char>
    decreases n,
{
    if n < 10 {
        seq![(n + 48) as char]
    } else {
        decimal_text(n / 10).push(((n % 10) + 48) as char)
    }
}

/// Appends the decimal digits of `n`.
fn push_decimal(s: &mut String, n: u64)
    ensures
        final(s)@ == old(s)@ + decimal_text(n as nat),
    decreases n,
{
    if n >= 10 {
        push_decimal(s, n / 10);
    }
    let digit = (n % 10) as u8 + 48;
    push_char(s, digit as char);
}

/// How an error is printed: `Error at line "<line>" (<row>:<column>): <message>`.
pub open spec fn error_text(e: ParseErrorView) -> Seq<char> {
    "Error at line \""@ + e.line + "\" ("@ + decimal_text(e.row as nat) + ":"@ + decimal_text(e.column as nat)
        + "): "@ + e.error
}

impl ParseError {
    /// Prints the error (see `error_text`)
    pub fn to_string(&self) -> (r: String)
        ensures
            r@ == error_text(self@),
    {
        let mut output = String::new();
        output.append("Error at line \"");
        output.append(self.line.as_str());
        output.append("\" (");
        push_decimal(&mut output, self.row as u64);
        output.append(":");
        push_decimal(&mut output, self.column);
        output.append("): ");
        output.append(self.error.as_str());
        output
    }

    /// Creates an error
    pub fn new(row: u32, column: u64, line: String, error: String) -> (e: Self)
        ensures
            e.row == row,
            e.column == column,
            e.line == line,
            e.error == error,
    {
        Self { row, column, line, error }
    }
}

/// The cursor's position: the index, the line number and where the line starts.
pub struct Cursor {
    pub index: int,
    pub line: int,
    pub line_index: int,
}

/// The state of the first parser over a source buffer.
pub struct ParseInfo<'a> {
    /// The errors found so far
    pub errors: Vec<ParseError>,
    /// The source
    pub buffer: &'a [u8],
    /// The index in the source
    pub index: usize,
    /// The current indent
    pub indent: String,
    /// The length of the source
    pub len: usize,
    /// The current line number
    pub line: u32,
    /// Where the current line starts
    pub line_index: usize,
}

impl<'a> View for ParseInfo<'a> {
    type V = Cursor;

    open spec fn view(&self) -> Cursor {
        Cursor { index: self.index as int, line: self.line as int, line_index: self.line_index as int }
    }
}

/// A well-formed cursor over a buffer: the line start is no later than the index, which is
/// in the buffer, and the line number is no larger than the index allows.
pub open spec fn cursor_wf(buf: Seq<u8>, m: Cursor) -> bool {
    &&& buf.len() <= MAX_PARSE_LEN
    &&& 0 <= m.line_index <= m.index <= buf.len()
    &&& 1 <= m.line <= m.index + 1
}

/// The cursor at `index`.
pub open spec fn moved(m: Cursor, index: int) -> Cursor {
    Cursor { index, ..m }
}

/// Whitespace for the parser.
pub open spec fn blank(c: u8) -> bool {
    c == 32 || c == 9 || c == 13 || c == 10
}

/// Where a block comment that opens at `i` (or a scan from `i` that has seen a `*` just
/// before, `escaping`) closes: the index after its closing `/`; `None` if it never does.
pub open spec fn comment_close(buf: Seq<u8>, i: int, escaping: bool) -> Option<int>
    decreases buf.len() - i,
{
    if i < 0 || i >= buf.len() {
        None
    } else if buf[i] == 42 {
        comment_close(buf, i + 1, true)
    } else if buf[i] == 47 {
        if escaping {
            Some(i + 1)
        } else {
            comment_close(buf, i + 1, escaping)
        }
    } else {
        comment_close(buf, i + 1, false)
    }
}

/// What `next_included` does: skips whitespace (counting newlines) and takes the next byte;
/// after a block comment, the byte that follows it, whatever it is. `Some(None)` at the end
/// of the buffer. `None` for an unclosed block comment, a block comment that closes at the
/// end of the buffer, or a `//` comment.
pub open spec fn pi_next(buf: Seq<u8>, m: Cursor) -> Option<(Cursor, Option<u8>)>
    decreases buf.len() - m.index,
{
    if m.index < 0 || m.index >= buf.len() {
        Some((m, None))
    } else {
        let c = buf[m.index];
        if blank(c) {
            pi_next(
                buf,
                Cursor {
                    index: m.index + 1,
                    line: if c == 10 { m.line + 1 } else { m.line },
                    line_index: if c == 10 { m.index } else { m.line_index },
                },
            )
        } else if c == 47 && m.index < buf.len() - 1 && buf[m.index + 1] == 42 {
            match comment_close(buf, m.index, false) {
                None => None,
                Some(j) => if j < buf.len() {
                    Some((moved(m, j + 1), Some(buf[j])))
                } else {
                    None
                },
            }
        } else if c == 47 && m.index < buf.len() - 1 && buf[m.index + 1] == 47 {
            None
        } else {
            Some((moved(m, m.index + 1), Some(c)))
        }
    }
}

/// What `skip_line` does: takes bytes until the line number is no longer `line` or the
/// buffer ends.
pub open spec fn pi_skip_line(buf: Seq<u8>, m: Cursor, line: int) -> Option<Cursor>
    decreases buf.len() - m.index,
{
    if m.line != line {
        Some(m)
    } else {
        match pi_next(buf, m) {
            None => None,
            Some((m2, None)) => Some(m2),
            Some((m2, Some(_))) => if m.index < m2.index <= buf.len() {
                pi_skip_line(buf, m2, line)
            } else {
                None
            },
        }
    }
}

/// What `parse_to` does: the bytes taken (each as a character) before `c`, or `None`
/// inside if the buffer ends first.
pub open spec fn pi_parse_to(buf: Seq<u8>, m: Cursor, c: u8, acc: Seq<char>) -> Option<(Cursor, Option<Seq<char>>)>
    decreases buf.len() - m.index,
{
    match pi_next(buf, m) {
        None => None,
        Some((m2, None)) => Some((m2, None)),
        Some((m2, Some(ch))) => if ch == c {
            Some((m2, Some(acc)))
        } else if m.index < m2.index <= buf.len() {
            pi_parse_to(buf, m2, c, acc.push(ch as char))
        } else {
            None
        },
    }
}

/// What `parse_to_or_end` does: as `pi_parse_to`, but giving up (`None` inside) once the
/// index reaches `end`.
pub open spec fn pi_parse_to_or_end(buf: Seq<u8>, m: Cursor, c: u8, end: int, acc: Seq<char>) -> Option<
    (Cursor, Option<Seq<char>>),
>
    decreases buf.len() - m.index,
{
    if m.index >= end {
        Some((m, None))
    } else {
        match pi_next(buf, m) {
            None => None,
            Some((m2, None)) => Some((m2, None)),
            Some((m2, Some(ch))) => if ch == c {
                Some((m2, Some(acc)))
            } else if m.index < m2.index <= buf.len() {
                pi_parse_to_or_end(buf, m2, c, end, acc.push(ch as char))
            } else {
                None
            },
        }
    }
}

/// What `parse_to_space` does: the bytes (each as a character) up to the next whitespace
/// byte, which is taken (a newline counted); `None` inside if the buffer ends first.
pub open spec fn pi_parse_to_space(buf: Seq<u8>, m: Cursor, acc: Seq<char>) -> (Cursor, Option<Seq<char>>)
    decreases buf.len() - m.index,
{
    if m.index < 0 || m.index >= buf.len() {
        (m, None)
    } else {
        let c = buf[m.index];
        if c == 10 {
            (Cursor { index: m.index + 1, line: m.line + 1, line_index: m.index + 1 }, Some(acc))
        } else if blank(c) {
            (moved(m, m.index + 1), Some(acc))
        } else {
            pi_parse_to_space(buf, moved(m, m.index + 1), acc.push(c as char))
        }
    }
}

/// What `matching` does with `text` from `m`, the cursor where the match started being
/// `start`: on a different byte it goes back to `start`; at the end of the buffer it stays.
pub open spec fn pi_matching(buf: Seq<u8>, start: Cursor, m: Cursor, text: Seq<u8>) -> Option<(Cursor, bool)>
    decreases text.len(),
{
    if text.len() == 0 {
        Some((m, true))
    } else {
        match pi_next(buf, m) {
            None => None,
            Some((m2, None)) => Some((m2, false)),
            Some((m2, Some(ch))) => if ch != text[0] {
                Some((start, false))
            } else {
                pi_matching(buf, start, m2, text.drop_first())
            },
        }
    }
}

/// The end of the line that starts at `start`: the first newline from there, or the end.
pub open spec fn line_end(buf: Seq<u8>, start: int) -> int
    decreases buf.len() - start,
{
    if 0 <= start < buf.len() && buf[start] != 10 {
        line_end(buf, start + 1)
    } else {
        start
    }
}

/// The text of the line that starts at `start`, as `get_line` decodes it.
pub open spec fn line_text(buf: Seq<u8>, start: int) -> Seq<char> {
    utf8_lossy(buf.subrange(start, line_end(buf, start)))
}

/// The error that `create_error` records at `m`.
pub open spec fn error_at(buf: Seq<u8>, m: Cursor, error: Seq<char>) -> ParseErrorView {
    ParseErrorView {
        row: m.line as u32,
        column: (m.index - m.line_index) as u64,
        line: line_text(buf, m.line_index),
        error,
    }
}

/// The message recorded for a block comment that does not close.
pub open spec fn unclosed_comment_message() -> Seq<char> {
    "No end to block comment!"@
}

/// What `parse_comment` does from the `/` that opens a block comment: it moves past the
/// comment, or, where the comment never closes, to the end of the buffer, recording an
/// error there (`Some` inside).
pub open spec fn pi_comment(buf: Seq<u8>, m: Cursor) -> (Cursor, Option<ParseErrorView>) {
    match comment_close(buf, m.index, false) {
        Some(j) => (moved(m, j), None),
        None => {
            let e = moved(m, buf.len() as int);
            (e, Some(error_at(buf, e, unclosed_comment_message())))
        },
    }
}

/// What `find_end_str` does inside a string: the index after its closing quote (a quote
/// after a backslash does not close it); the end of the buffer if it is reached between
/// bytes. `None` where a read is past the buffer.
pub open spec fn pi_string_end(buf: Seq<u8>, p: int, ignoring: bool) -> Option<int>
    decreases buf.len() - p,
{
    if p >= buf.len() || p < 0 {
        Some(p)
    } else {
        let j = p + 1;
        if j >= buf.len() {
            None
        } else if buf[j] == 34 {
            if ignoring {
                pi_string_end(buf, j, false)
            } else {
                Some(j + 1)
            }
        } else if buf[j] == 92 {
            pi_string_end(buf, j, true)
        } else {
            pi_string_end(buf, j, false)
        }
    }
}

/// What `find_end` does inside a code block opened `depth` deep, at `p`, inside a string
/// (`in_str`, after a backslash if `ignoring`) or not: the index after the `}` that closes
/// the block; the end of the buffer if it is reached between bytes. Each nested string or
/// block, once closed, also passes over the byte that follows it. `None` where a read is
/// past the buffer.
pub open spec fn pi_block_end(buf: Seq<u8>, p: int, depth: nat, in_str: bool, ignoring: bool) -> Option<int>
    decreases buf.len() - p,
{
    if p >= buf.len() || p < 0 {
        Some(p)
    } else {
        let j = p + 1;
        if j >= buf.len() {
            None
        } else {
            let c = buf[j];
            if in_str {
                if c == 34 {
                    if ignoring {
                        pi_block_end(buf, j, depth, true, false)
                    } else {
                        pi_block_end(buf, j + 1, depth, false, false)
                    }
                } else if c == 92 {
                    pi_block_end(buf, j, depth, true, true)
                } else {
                    pi_block_end(buf, j, depth, true, false)
                }
            } else if c == 34 {
                pi_block_end(buf, j, depth, true, false)
            } else if c == 123 {
                pi_block_end(buf, j, depth + 1, false, false)
            } else if c == 125 {
                if depth <= 1 {
                    Some(j + 1)
                } else {
                    pi_block_end(buf, j + 1, (depth - 1) as nat, false, false)
                }
            } else {
                pi_block_end(buf, j, depth, false, false)
            }
        }
    }
}

pub proof fn lemma_pi_next(buf: Seq<u8>, m: Cursor)
    requires
        cursor_wf(buf, m),
    ensures
        pi_next(buf, m) matches Some((m2, r)) ==> {
            &&& cursor_wf(buf, m2)
            &&& m.index <= m2.index
            &&& (r is Some ==> m.index < m2.index)
            &&& (r is None ==> m2.index == buf.len())
        },
    decreases buf.len() - m.index,
{
    if 0 <= m.index < buf.len() {
        let c = buf[m.index];
        if blank(c) {
            lemma_pi_next(
                buf,
                Cursor {
                    index: m.index + 1,
                    line: if c == 10 { m.line + 1 } else { m.line },
                    line_index: if c == 10 { m.index } else { m.line_index },
                },
            );
        } else if c == 47 && m.index < buf.len() - 1 && buf[m.index + 1] == 42 {
            lemma_comment_close(buf, m.index, false);
        }
    }
}

pub proof fn lemma_comment_close(buf: Seq<u8>, i: int, escaping: bool)
    ensures
        comment_close(buf, i, escaping) matches Some(j) ==> i < j <= buf.len(),
    decreases buf.len() - i,
{
    if 0 <= i < buf.len() {
        if buf[i] == 42 {
            lemma_comment_close(buf, i + 1, true);
        } else if buf[i] == 47 {
            lemma_comment_close(buf, i + 1, escaping);
        } else {
            lemma_comment_close(buf, i + 1, false);
        }
    }
}

/// The line of `buffer` that starts at `start`, without its newline.
pub fn get_line(buffer: &[u8], start: usize) -> (line: String)
    requires
        start <= buffer@.len(),
    ensures
        line@ == line_text(buffer@, start as int),
        valid_utf8(buffer@.subrange(start as int, line_end(buffer@, start as int))) ==> line@ == decode_utf8(
            buffer@.subrange(start as int, line_end(buffer@, start as int)),
        ),
{
    let mut i = start;
    while i < buffer.len()
        invariant
            start <= i <= buffer@.len(),
            line_end(buffer@, i as int) == line_end(buffer@, start as int),
        decreases buffer@.len() - i,
    {
        if buffer[i] == 10 {
            proof {
                assert(buffer@.subrange(start as int, i as int) == buffer@.subrange(start as int, line_end(buffer@, start as int)));
            }
            return lossy_string(&buffer[start..i]);
        }
        i += 1;
    }
    lossy_string(&buffer[start..buffer.len()])
}

impl<'a> ParseInfo<'a> {
    /// The cursor is well formed over its buffer.
    pub open spec fn wf(&self) -> bool {
        &&& self.len == self.buffer@.len()
        &&& cursor_wf(self.buffer@, self@)
    }

    /// Only the cursor has moved: the errors, the buffer and the indent are as in `other`.
    pub open spec fn same_but_cursor(&self, other: ParseInfo) -> bool {
        &&& self.buffer == other.buffer
        &&& self.len == other.len
        &&& self.indent == other.indent
        &&& self.errors@ == other.errors@
    }

    /// Creates a parser at the start of `buffer`.
    pub fn new(buffer: &'a [u8]) -> (p: Self)
        requires
            buffer@.len() <= MAX_PARSE_LEN,
        ensures
            p.wf(),
            p.buffer == buffer,
            p.errors@.len() == 0,
            p.indent@.len() == 0,
            p@ == (Cursor { index: 0, line: 1, line_index: 0 }),
    {
        Self {
            errors: Vec::new(),
            len: buffer.len(),
            buffer,
            index: 0,
            indent: String::new(),
            line: 1,
            line_index: 0,
        }
    }

    /// A copy of the cursor over the same buffer, with no errors.
    pub(crate) fn fork(&self) -> (p: ParseInfo<'a>)
        ensures
            p@ == self@,
            p.buffer == self.buffer,
            p.len == self.len,
            p.errors@.len() == 0,
            self.wf() ==> p.wf(),
    {
        ParseInfo {
            errors: Vec::new(),
            buffer: self.buffer,
            index: self.index,
            indent: String::new(),
            len: self.len,
            line: self.line,
            line_index: self.line_index,
        }
    }

    /// Whether `c` is whitespace; a newline moves the cursor to a new line starting here.
    fn whitespace_next(&mut self, c: u8) -> (r: bool)
        requires
            old(self).line < u32::MAX,
        ensures
            r == blank(c),
            final(self)@ == (if c == 10 {
                Cursor { line: old(self)@.line + 1, line_index: old(self)@.index, ..old(self)@ }
            } else {
                old(self)@
            }),
            final(self).same_but_cursor(*old(self)),
    {
        if c == 32 || c == 9 || c == 13 {
            true
        } else if c == 10 {
            self.line += 1;
            self.line_index = self.index;
            true
        } else {
            false
        }
    }

    /// `next_included`, with `None` where it cannot be taken.
    fn next_opt(&mut self) -> (r: Option<Option<u8>>)
        requires
            old(self).wf(),
        ensures
            final(self).same_but_cursor(*old(self)),
            match pi_next(old(self).buffer@, old(self)@) {
                None => r is None,
                Some((m, c)) => r == Some(c) && final(self)@ == m && final(self).wf(),
            },
    {
        let ghost buf = self.buffer@;
        while self.index < self.len
            invariant
                self.wf(),
                self.same_but_cursor(*old(self)),
                buf == self.buffer@,
                pi_next(buf, self@) == pi_next(buf, old(self)@),
            decreases self.len - self.index,
        {
            let c = self.buffer[self.index];
            let ghost pre = self@;
            if !self.whitespace_next(c) {
                if c == 47 {
                    if self.index < self.len - 1 && self.buffer[self.index + 1] == 42 {
                        if !self.close_comment() {
                            return None;
                        }
                        if self.index >= self.len {
                            return None;
                        }
                        self.index += 1;
                        return Some(Some(self.buffer[self.index - 1]));
                    } else if self.index < self.len - 1 && self.buffer[self.index + 1] == 47 {
                        // The line would be skipped by reading from here again, without end.
                        return None;
                    } else {
                        self.index += 1;
                        return Some(Some(self.buffer[self.index - 1]));
                    }
                }
                self.index += 1;
                return Some(Some(c));
            }
            self.index += 1;
        }
        Some(None)
    }

    /// Moves past a block comment opening at the index; `false` where it does not close.
    fn close_comment(&mut self) -> (r: bool)
        requires
            old(self).wf(),
            old(self).index < old(self).len,
        ensures
            final(self).same_but_cursor(*old(self)),
            match comment_close(old(self).buffer@, old(self)@.index, false) {
                Some(j) => r && final(self)@ == moved(old(self)@, j) && final(self).wf(),
                None => !r && final(self)@ == moved(old(self)@, old(self).len as int) && final(self).wf(),
            },
    {
        let ghost buf = self.buffer@;
        let mut escaping = false;
        proof {
            lemma_comment_close(buf, self.index as int, false);
        }
        while self.index < self.len
            invariant
                self.wf(),
                self.same_but_cursor(*old(self)),
                buf == self.buffer@,
                old(self).index <= self.index,
                self@ == moved(old(self)@, self.index as int),
                comment_close(buf, self.index as int, escaping) == comment_close(buf, old(self).index as int, false),
            decreases self.len - self.index,
        {
            let c = self.buffer[self.index];
            if c == 42 {
                escaping = true;
            } else if c == 47 {
                if escaping {
                    self.index += 1;
                    return true;
                }
            } else {
                escaping = false;
            }
            self.index += 1;
        }
        false
    }

    /// The next byte that is not whitespace (see `pi_next`), or `None` at the end.
    pub fn next_included(&mut self) -> (r: Option<u8>)
        requires
            old(self).wf(),
            pi_next(old(self).buffer@, old(self)@) is Some,
        ensures
            final(self).wf(),
            final(self).same_but_cursor(*old(self)),
            pi_next(old(self).buffer@, old(self)@) == Some((final(self)@, r)),
    {
        self.next_opt().unwrap()
    }

    /// Whether the next byte that is not whitespace is `c`.
    pub fn find_next(&mut self, c: u8) -> (r: bool)
        requires
            old(self).wf(),
            pi_next(old(self).buffer@, old(self)@) is Some,
        ensures
            final(self).wf(),
            final(self).same_but_cursor(*old(self)),
            pi_next(old(self).buffer@, old(self)@).unwrap().0 == final(self)@,
            r == (pi_next(old(self).buffer@, old(self)@).unwrap().1 == Some(c)),
    {
        match self.next_included() {
            Some(found) => found == c,
            None => false,
        }
    }

    /// Moves past the block comment that opens at the index. Where it does not close, the
    /// cursor ends at the end of the buffer and an error is recorded there.
    pub fn parse_comment(&mut self)
        requires
            old(self).wf(),
            old(self).index < old(self).len,
        ensures
            final(self).wf(),
            final(self).buffer == old(self).buffer,
            final(self).len == old(self).len,
            final(self).indent == old(self).indent,
            final(self)@ == pi_comment(old(self).buffer@, old(self)@).0,
            match pi_comment(old(self).buffer@, old(self)@).1 {
                None => final(self).errors@ == old(self).errors@,
                Some(e) => final(self).errors@.len() == old(self).errors@.len() + 1
                    && final(self).errors@.take(old(self).errors@.len() as int) == old(self).errors@
                    && final(self).errors@.last()@ == e,
            },
    {
        if !self.close_comment() {
            let message = "No end to block comment!".to_owned();
            proof {
                let ghost buf = self.buffer@;
                assert(pi_skip_line(buf, self@, self@.line) == Some(self@));
            }
            self.create_error(message);
        }
    }

    /// The position of the cursor: the line number and the column.
    pub fn loc(&self) -> (r: (u32, u32))
        requires
            self.wf(),
        ensures
            r == (self@.line as u32, (self@.index - self@.line_index) as u32),
    {
        (self.line, (self.index - self.line_index) as u32)
    }

    /// Records an error at the cursor, with the text of the current line, then skips the
    /// rest of the line.
    pub fn create_error(&mut self, error: String)
        requires
            old(self).wf(),
            pi_skip_line(old(self).buffer@, old(self)@, old(self)@.line) is Some,
        ensures
            final(self).wf(),
            final(self).buffer == old(self).buffer,
            final(self).len == old(self).len,
            final(self).indent == old(self).indent,
            final(self).errors@ == old(self).errors@.push(final(self).errors@.last()),
            final(self).errors@.last()@ == error_at(old(self).buffer@, old(self)@, error@),
            final(self)@ == pi_skip_line(old(self).buffer@, old(self)@, old(self)@.line).unwrap(),
    {
        let row = self.line;
        let column = (self.index - self.line_index) as u64;
        let line = get_line(self.buffer, self.line_index);
        self.errors.push(ParseError::new(row, column, line, error));
        self.skip_line();
    }

    /// Takes bytes until the line number changes (see `pi_skip_line`).
    pub fn skip_line(&mut self)
        requires
            old(self).wf(),
            pi_skip_line(old(self).buffer@, old(self)@, old(self)@.line) is Some,
        ensures
            final(self).wf(),
            final(self).same_but_cursor(*old(self)),
            final(self)@ == pi_skip_line(old(self).buffer@, old(self)@, old(self)@.line).unwrap(),
    {
        let ghost buf = self.buffer@;
        let line = self.line;
        loop
            invariant
                self.wf(),
                self.same_but_cursor(*old(self)),
                buf == self.buffer@,
                pi_skip_line(buf, self@, line as int) == pi_skip_line(buf, old(self)@, line as int),
                pi_skip_line(buf, self@, line as int) is Some,
                line == old(self)@.line,
            decreases self.len - self.index,
        {
            if line != self.line {
                return;
            }
            proof {
                lemma_pi_next(buf, self@);
            }
            match self.next_opt() {
                Some(Some(_)) => {},
                _ => {
                    return;
                },
            }
        }
    }

    /// Reads up to the next `c` (see `pi_parse_to`): the bytes before it, or `None` if the
    /// buffer ends first.
    pub fn parse_to(&mut self, c: u8) -> (r: Option<String>)
        requires
            old(self).wf(),
            pi_parse_to(old(self).buffer@, old(self)@, c, Seq::empty()) is Some,
        ensures
            final(self).wf(),
            final(self).same_but_cursor(*old(self)),
            pi_parse_to(old(self).buffer@, old(self)@, c, Seq::empty()).unwrap().0 == final(self)@,
            pi_parse_to(old(self).buffer@, old(self)@, c, Seq::empty()).unwrap().1 == match r {
                Some(s) => Some(s@),
                None => None::<Seq<char>>,
            },
    {
        let ghost buf = self.buffer@;
        let mut output = String::new();
        loop
            invariant
                self.wf(),
                self.same_but_cursor(*old(self)),
                buf == self.buffer@,
                pi_parse_to(buf, self@, c, output@) == pi_parse_to(buf, old(self)@, c, Seq::empty()),
                pi_parse_to(buf, self@, c, output@) is Some,
            decreases self.len - self.index,
        {
            proof {
                lemma_pi_next(buf, self@);
            }
            match self.next_opt() {
                Some(Some(character)) => {
                    if character == c {
                        return Some(output);
                    }
                    push_char(&mut output, character as char);
                },
                _ => {
                    return None;
                },
            }
        }
    }

    /// Reads up to the next whitespace byte (see `pi_parse_to_space`): the bytes before
    /// it, or `None` if the buffer ends first.
    pub fn parse_to_space(&mut self) -> (r: Option<String>)
        requires
            old(self).wf(),
        ensures
            final(self).wf(),
            final(self).same_but_cursor(*old(self)),
            pi_parse_to_space(old(self).buffer@, old(self)@, Seq::empty()).0 == final(self)@,
            pi_parse_to_space(old(self).buffer@, old(self)@, Seq::empty()).1 == match r {
                Some(s) => Some(s@),
                None => None::<Seq<char>>,
            },
    {
        let ghost buf = self.buffer@;
        let mut output = String::new();
        while self.index < self.len
            invariant
                self.wf(),
                self.same_but_cursor(*old(self)),
                buf == self.buffer@,
                pi_parse_to_space(buf, self@, output@) == pi_parse_to_space(buf, old(self)@, Seq::empty()),
            decreases self.len - self.index,
        {
            let character = self.buffer[self.index];
            self.index += 1;
            if self.whitespace_next(character) {
                return Some(output);
            }
            push_char(&mut output, character as char);
        }
        None
    }

    /// Reads up to the next `c` as `parse_to` does, giving up once the index reaches `end`
    /// (see `pi_parse_to_or_end`).
    pub fn parse_to_or_end(&mut self, c: u8, end: usize) -> (r: Option<String>)
        requires
            old(self).wf(),
            pi_parse_to_or_end(old(self).buffer@, old(self)@, c, end as int, Seq::empty()) is Some,
        ensures
            final(self).wf(),
            final(self).same_but_cursor(*old(self)),
            pi_parse_to_or_end(old(self).buffer@, old(self)@, c, end as int, Seq::empty()).unwrap().0
                == final(self)@,
            pi_parse_to_or_end(old(self).buffer@, old(self)@, c, end as int, Seq::empty()).unwrap().1
                == match r {
                Some(s) => Some(s@),
                None => None::<Seq<char>>,
            },
    {
        let ghost buf = self.buffer@;
        let mut output = String::new();
        while self.index < end
            invariant
                self.wf(),
                self.same_but_cursor(*old(self)),
                buf == self.buffer@,
                pi_parse_to_or_end(buf, self@, c, end as int, output@) == pi_parse_to_or_end(
                    buf,
                    old(self)@,
                    c,
                    end as int,
                    Seq::empty(),
                ),
                pi_parse_to_or_end(buf, self@, c, end as int, output@) is Some,
            decreases self.len - self.index,
        {
            proof {
                lemma_pi_next(buf, self@);
            }
            match self.next_opt() {
                Some(Some(character)) => {
                    if character == c {
                        return Some(output);
                    }
                    push_char(&mut output, character as char);
                },
                _ => {
                    return None;
                },
            }
        }
        None
    }

    /// Matches `matching` byte by byte from the cursor, skipping whitespace (see
    /// `pi_matching`): on a different byte the cursor goes back; at the end of the buffer
    /// it stays there.
    pub fn matching(&mut self, matching: &str) -> (r: bool)
        requires
            old(self).wf(),
            pi_matching(old(self).buffer@, old(self)@, old(self)@, matching.spec_bytes()) is Some,
        ensures
            final(self).wf(),
            final(self).same_but_cursor(*old(self)),
            pi_matching(old(self).buffer@, old(self)@, old(self)@, matching.spec_bytes()) == Some(
                (final(self)@, r),
            ),
    {
        let ghost buf = self.buffer@;
        let saved_index = self.index;
        let saved_line = self.line;
        let saved_line_index = self.line_index;
        let bytes = matching.as_bytes();
        let mut i: usize = 0;
        proof {
            assert(bytes@.skip(0) =~= bytes@);
        }
        while i < bytes.len()
            invariant
                self.wf(),
                self.same_but_cursor(*old(self)),
                buf == self.buffer@,
                i <= bytes@.len(),
                bytes@ == matching.spec_bytes(),
                saved_index == old(self).index,
                saved_line == old(self)@.line,
                saved_line_index == old(self)@.line_index,
                old(self).wf(),
                pi_matching(buf, old(self)@, old(self)@, bytes@) == pi_matching(
                    buf,
                    old(self)@,
                    self@,
                    bytes@.skip(i as int),
                ),
                pi_matching(buf, old(self)@, self@, bytes@.skip(i as int)) is Some,
            decreases bytes@.len() - i,
        {
            proof {
                assert(bytes@.skip(i as int).drop_first() =~= bytes@.skip(i + 1));
                assert(bytes@.skip(i as int)[0] == bytes@[i as int]);
            }
            let ghost pre = self@;
            proof {
                lemma_pi_next(buf, pre);
            }
            match self.next_opt() {
                Some(Some(found)) => {
                    if found != bytes[i] {
                        self.index = saved_index;
                        self.line = saved_line;
                        self.line_index = saved_line_index;
                        return false;
                    }
                },
                Some(None) => {
                    return false;
                },
                None => {
                    return false;
                },
            }
            i += 1;
        }
        proof {
            assert(bytes@.skip(i as int).len() == 0);
        }
        true
    }

    /// Moves past a string whose opening quote is at the index (see `pi_string_end`).
    pub fn find_end_str(&mut self)
        requires
            old(self).wf(),
            pi_string_end(old(self).buffer@, old(self)@.index, false) is Some,
        ensures
            final(self).wf(),
            final(self).same_but_cursor(*old(self)),
            final(self)@ == moved(old(self)@, pi_string_end(old(self).buffer@, old(self)@.index, false).unwrap()),
    {
        let ghost buf = self.buffer@;
        let mut ignoring = false;
        while self.index < self.len
            invariant
                self.wf(),
                self.same_but_cursor(*old(self)),
                buf == self.buffer@,
                self@ == moved(old(self)@, self@.index),
                old(self).index <= self.index,
                pi_string_end(buf, self@.index, ignoring) == pi_string_end(buf, old(self)@.index, false),
                pi_string_end(buf, self@.index, ignoring) is Some,
            decreases self.len - self.index,
        {
            self.index += 1;
            if self.index >= self.len {
                // Unreachable: the contract rules out reading past the buffer.
                return;
            }
            let c = self.buffer[self.index];
            if c == 34 {
                if ignoring {
                    ignoring = false;
                } else {
                    self.index += 1;
                    return;
                }
            } else if c == 92 {
                ignoring = true;
            } else {
                ignoring = false;
            }
        }
    }

    /// Moves past the code block that opens at the index (see `pi_block_end`).
    pub fn find_end(&mut self)
        requires
            old(self).wf(),
            pi_block_end(old(self).buffer@, old(self)@.index, 1, false, false) is Some,
        ensures
            final(self).wf(),
            final(self).same_but_cursor(*old(self)),
            final(self)@ == moved(old(self)@, pi_block_end(old(self).buffer@, old(self)@.index, 1, false, false).unwrap()),
    {
        let ghost buf = self.buffer@;
        let mut depth: usize = 1;
        let mut in_str = false;
        let mut ignoring = false;
        while self.index < self.len
            invariant
                self.wf(),
                self.same_but_cursor(*old(self)),
                buf == self.buffer@,
                self@ == moved(old(self)@, self@.index),
                1 <= depth <= 1 + self.index,
                !in_str ==> !ignoring,
                pi_block_end(buf, self@.index, depth as nat, in_str, ignoring) == pi_block_end(
                    buf,
                    old(self)@.index,
                    1,
                    false,
                    false,
                ),
                pi_block_end(buf, self@.index, depth as nat, in_str, ignoring) is Some,
            decreases self.len - self.index,
        {
            let ghost pre = self@.index;
            self.index += 1;
            if self.index >= self.len {
                // Unreachable: the contract rules out reading past the buffer.
                return;
            }
            let c = self.buffer[self.index];
            if in_str {
                if c == 34 {
                    if ignoring {
                        ignoring = false;
                    } else {
                        in_str = false;
                        self.index += 1;
                    }
                } else if c == 92 {
                    ignoring = true;
                } else {
                    ignoring = false;
                }
            } else if c == 34 {
                in_str = true;
            } else if c == 123 {
                depth += 1;
            } else if c == 125 {
                if depth <= 1 {
                    self.index += 1;
                    return;
                }
                depth -= 1;
                self.index += 1;
            }
        }
    }
}

} // verus!
