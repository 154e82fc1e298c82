//! Literals and names read with the first parser's cursor.
use vstd::prelude::*;

use crate::parse_info::{error_at, moved, Cursor, ParseInfo};
use crate::text::{lossy_string, push_char, utf8_lossy};

verus! {

/// The message recorded for a string that does not end.
pub open spec fn unended_string_message() -> Seq<char> {
    "Missing end to string!"@
}

/// What `parse_string` reads from `i` (after a backslash, `escape`): the index of the quote
/// that ends the string and its characters, or the end of the buffer and `None`. A
/// backslash escapes the next byte: a second backslash stands for itself, a quote is
/// dropped, any other byte is kept.
pub open spec fn string_literal(buf: Seq<u8>, i: int, escape: bool, acc: Seq<char>) -> (int, Option<Seq<char>>)
    decreases buf.len() - i,
{
    if i < 0 || i >= buf.len() {
        (buf.len() as int, None)
    } else {
        let c = buf[i];
        if c == 92 {
            if escape {
                string_literal(buf, i + 1, false, acc.push('\\'))
            } else {
                string_literal(buf, i + 1, true, acc)
            }
        } else if c == 34 {
            if !escape {
                (i, Some(acc))
            } else {
                string_literal(buf, i + 1, escape, acc)
            }
        } else {
            string_literal(buf, i + 1, false, acc.push(c as char))
        }
    }
}

/// Reads the body of a string up to the quote that ends it (see `string_literal`), which
/// is left as the next byte. Where the buffer ends first, an error is recorded there.
pub fn parse_string(parsing: &mut ParseInfo) -> (r: Option<String>)
    requires
        old(parsing).wf(),
    ensures
        final(parsing).wf(),
        final(parsing).buffer == old(parsing).buffer,
        final(parsing).len == old(parsing).len,
        final(parsing).indent == old(parsing).indent,
        ({
            let (end, text) = string_literal(old(parsing).buffer@, old(parsing)@.index, false, Seq::empty());
            &&& final(parsing)@ == moved(old(parsing)@, end)
            &&& match text {
                Some(t) => r matches Some(s) && s@ == t && final(parsing).errors@ == old(parsing).errors@,
                None => r is None && final(parsing).errors@ == old(parsing).errors@.push(final(parsing).errors@.last())
                    && final(parsing).errors@.last()@ == error_at(
                    old(parsing).buffer@,
                    moved(old(parsing)@, end),
                    unended_string_message(),
                ),
            }
        }),
{
    let ghost buf = parsing.buffer@;
    let mut output = String::new();
    let mut escape = false;
    loop
        invariant
            parsing.wf(),
            parsing.buffer == old(parsing).buffer,
            parsing.len == old(parsing).len,
            parsing.indent == old(parsing).indent,
            parsing.errors@ == old(parsing).errors@,
            buf == parsing.buffer@,
            parsing@ == moved(old(parsing)@, parsing@.index),
            string_literal(buf, parsing@.index, escape, output@) == string_literal(
                buf,
                old(parsing)@.index,
                false,
                Seq::empty(),
            ),
        decreases parsing.len - parsing.index,
    {
        if parsing.len == parsing.index {
            let message = "Missing end to string!".to_owned();
            proof {
                assert(crate::parse_info::pi_skip_line(buf, parsing@, parsing@.line) == Some(parsing@));
            }
            parsing.create_error(message);
            return None;
        }
        let c = parsing.buffer[parsing.index];
        if c == 92 {
            if escape {
                escape = false;
                push_char(&mut output, '\\');
            } else {
                escape = true;
            }
        } else if c == 34 {
            if !escape {
                return Some(output);
            }
        } else {
            escape = false;
            push_char(&mut output, c as char);
        }
        parsing.index += 1;
    }
}

/// Whether a byte is an ASCII letter.
pub open spec fn ascii_letter(c: u8) -> bool {
    (65 <= c <= 90) || (97 <= c <= 122)
}

/// The first index after `i` that is the end of the buffer or holds a byte that `ok` rejects.
pub open spec fn name_end(buf: Seq<u8>, i: int, colons: bool) -> int
    decreases buf.len() - i,
{
    let j = i + 1;
    if j < buf.len() && (ascii_letter(buf[j]) || (colons && buf[j] == 58)) {
        name_end(buf, j, colons)
    } else {
        j
    }
}

proof fn lemma_name_end(buf: Seq<u8>, i: int, colons: bool)
    requires
        0 <= i < buf.len(),
    ensures
        i < name_end(buf, i, colons) <= buf.len(),
    decreases buf.len() - i,
{
    let j = i + 1;
    if j < buf.len() && (ascii_letter(buf[j]) || (colons && buf[j] == 58)) {
        lemma_name_end(buf, j, colons);
    }
}

/// Reads a name: the byte at the index, then ASCII letters (and `:` where `colons`).
fn read_name(parsing: &mut ParseInfo, colons: bool) -> (r: String)
    requires
        old(parsing).wf(),
        old(parsing).index < old(parsing).len,
    ensures
        final(parsing).wf(),
        final(parsing).same_but_cursor(*old(parsing)),
        final(parsing)@ == moved(old(parsing)@, name_end(old(parsing).buffer@, old(parsing)@.index, colons)),
        r@ == utf8_lossy(old(parsing).buffer@.subrange(old(parsing)@.index, final(parsing)@.index)),
{
    let ghost buf = parsing.buffer@;
    let start = parsing.index;
    proof {
        lemma_name_end(buf, start as int, colons);
    }
    let mut end = start + 1;
    while end < parsing.len && ((65 <= parsing.buffer[end] && parsing.buffer[end] <= 90) || (97
        <= parsing.buffer[end] && parsing.buffer[end] <= 122) || (colons && parsing.buffer[end] == 58))
        invariant
            parsing.wf(),
            *parsing == *old(parsing),
            buf == parsing.buffer@,
            start == old(parsing).index,
            start < end <= parsing.len,
            name_end(buf, end - 1, colons) == name_end(buf, start as int, colons),
        decreases parsing.len - end,
    {
        end += 1;
    }
    parsing.index = end;
    lossy_string(&parsing.buffer[start..parsing.index])
}

/// Reads an identifier: the byte at the index, then ASCII letters.
pub fn parse_ident(parsing: &mut ParseInfo) -> (r: String)
    requires
        old(parsing).wf(),
        old(parsing).index < old(parsing).len,
    ensures
        final(parsing).wf(),
        final(parsing).same_but_cursor(*old(parsing)),
        final(parsing)@ == moved(old(parsing)@, name_end(old(parsing).buffer@, old(parsing)@.index, false)),
        r@ == utf8_lossy(old(parsing).buffer@.subrange(old(parsing)@.index, final(parsing)@.index)),
{
    read_name(parsing, false)
}

/// Reads a path such as `a::b`: the byte at the index, then ASCII letters and colons.
pub fn parse_with_references(parsing: &mut ParseInfo) -> (r: String)
    requires
        old(parsing).wf(),
        old(parsing).index < old(parsing).len,
    ensures
        final(parsing).wf(),
        final(parsing).same_but_cursor(*old(parsing)),
        final(parsing)@ == moved(old(parsing)@, name_end(old(parsing).buffer@, old(parsing)@.index, true)),
        r@ == utf8_lossy(old(parsing).buffer@.subrange(old(parsing)@.index, final(parsing)@.index)),
{
    read_name(parsing, true)
}

} // verus!
