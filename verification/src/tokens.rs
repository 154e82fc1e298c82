//! Tokens: the spans of a source file that the tokenizer hands to the parser.
use vstd::prelude::*;
use vstd::utf8::{decode_utf8, valid_utf8};

use crate::text::{lossy_string, utf8_lossy};

verus! {

/// Data about the code block around a token
#[derive(Clone, Copy, Debug, PartialEq, Eq, Structural)]
pub struct TokenCodeData {
    /// Start line of the code block
    pub start_line: u32,
    /// End line of the code block
    pub end_line: u32,
}

/// The different kinds of tokens.
#[derive(Clone, Copy, Debug, PartialEq, Eq, Structural)]
pub enum TokenTypes {
    /// The start of a file
    Start,
    /// The end of a file
    EOF,
    /// Invalid characters that must be error handled
    InvalidCharacters,
    /// The start of a string
    StringStart,
    /// A string escape character which must be handled specially
    StringEscape,
    /// The end of a string
    StringEnd,
    /// The import keyword
    ImportStart,
    /// A non-keyword identifier, like a variable/function/import name
    Identifier,
    /// Start of attributes, can be empty
    AttributesStart,
    /// A single attribute
    Attribute,
    /// Start of modifiers, can be empty
    ModifiersStart,
    /// A single modifier
    Modifier,
    /// Start of generics ("<")
    GenericsStart,
    /// A single generic
    Generic,
    /// The bound symbol of the generic (":")
    GenericBound,
    /// The end of a single generic
    GenericEnd,
    /// The start of a function's arguments
    ArgumentsStart,
    /// The name of the argument
    ArgumentName,
    /// The argument's type
    ArgumentType,
    /// The end of a function's arguments
    ArgumentsEnd,
    /// The end of a single argument
    ArgumentEnd,
    /// A function's return type
    ReturnType,
    /// The start of code ("{")
    CodeStart,
    /// The start of a struct ("struct")
    StructStart,
    /// The start of a trait ("trait")
    TraitStart,
    /// The start of an impl ("impl")
    ImplStart,
    /// The start of a function ("fn")
    FunctionStart,
    /// A top element inside a struct
    StructTopElement,
    /// The end of the struct
    StructEnd,
    /// The name of a field
    FieldName,
    /// The type of a field
    FieldType,
    /// A field's value, which is followed by code
    FieldValue,
    /// The end of the field
    FieldEnd,
    /// The end of a line of code (";")
    LineEnd,
    /// An operator, any non-illegal character in code like +, -, etc... which is checked later
    Operator,
    /// The end of a block of code ("}")
    CodeEnd,
    /// A variable name
    Variable,
    /// An integer
    Integer,
    /// A float
    Float,
    /// A type being called, always comes after a period (like variable.method())
    CallingType,
    /// The return keyword
    Return,
    /// The break keyword
    Break,
    /// The switch keyword
    Switch,
    /// The for keyword
    For,
    /// The while keyword
    While,
    /// The else keyword
    Else,
    /// The if keyword
    If,
    /// An opening parenthesis
    ParenOpen,
    /// A closing parenthesis
    ParenClose,
    /// The start of a block of code ("{") that is not the top-level one
    BlockStart,
    /// The end of a block of code ("}") that is not the top-level one
    BlockEnd,
    /// The new keyword
    New,
    /// A colon
    Colon,
    /// The in keyword
    In,
    /// The end of an import (";")
    ImportEnd,
    /// The return type arrow in a function header ("->")
    ReturnTypeArrow,
    /// The separator between an argument and its type (":")
    ArgumentTypeSeparator,
    /// The separator between two arguments (",")
    ArgumentSeparator,
    /// The let keyword
    Let,
    /// The equals sign
    Equals,
    /// The end of a single attribute
    AttributeEnd,
    /// The separator between a field and its value (":")
    FieldSeparator,
    /// The period symbol
    Period,
    /// A comment, started by "//" and spanning one line or started by "/*" and ended by "*/"
    Comment,
    /// The true keyword
    True,
    /// The false keyword
    False,
    /// The start of a single attribute
    AttributeStart,
    /// The end of a generic bound (">")
    GenericBoundEnd,
    /// The end of a group of generics (">")
    GenericsEnd,
    /// The do keyword
    Do,
    /// A single character surrounded by single quotes ('a')
    Char,
    /// A blank line
    BlankLine,
}

/// A token is a single string of characters in the file.
/// For example, keywords, variables, etc... are a single token.
#[derive(Clone, Copy, Debug)]
pub struct Token {
    /// The type of the token
    pub token_type: TokenTypes,
    /// The starting line and index in that line of the token.
    pub start: (u32, u32),
    /// The offset to the start of the token
    pub start_offset: usize,
    /// The ending line and index in that line of the token.
    pub end: (u32, u32),
    /// The offset to the end of the token
    pub end_offset: usize,
    /// Data about the code block around this token
    pub code_data: Option<TokenCodeData>,
}

/// Whether `c` is skipped at either end of a token's text. A newline is skipped only while
/// the two ends have not met (`inside`).
pub open spec fn trimmed_byte(c: u8, inside: bool) -> bool {
    c == 32 || c == 9 || c == 13 || (c == 10 && inside)
}

/// Where the text of a token starts once leading blanks are skipped, or `None` where the
/// scan leaves the buffer.
pub open spec fn trim_start(buf: Seq<u8>, start: int, end: int) -> Option<int>
    decreases buf.len() - start,
{
    if !(0 <= start < buf.len()) {
        None
    } else if trimmed_byte(buf[start], start < end) {
        trim_start(buf, start + 1, end)
    } else {
        Some(start)
    }
}

/// Where the text of a token ends (inclusive) once trailing blanks are skipped, or `None`
/// where the scan leaves the buffer.
pub open spec fn trim_end(buf: Seq<u8>, start: int, end: int) -> Option<int>
    decreases end,
{
    if !(0 <= end < buf.len()) {
        None
    } else if trimmed_byte(buf[end], start < end) {
        if end == 0 {
            None
        } else {
            trim_end(buf, start, end - 1)
        }
    } else {
        Some(end)
    }
}

proof fn lemma_trim_start_after(buf: Seq<u8>, start: int, end: int)
    ensures
        trim_start(buf, start, end) matches Some(s) ==> start <= s,
    decreases buf.len() - start,
{
    if 0 <= start < buf.len() && trimmed_byte(buf[start], start < end) {
        lemma_trim_start_after(buf, start + 1, end);
    }
}

proof fn lemma_trim_end_before(buf: Seq<u8>, start: int, end: int)
    ensures
        trim_end(buf, start, end) matches Some(e) ==> e <= end,
    decreases end,
{
    if 0 <= end < buf.len() && trimmed_byte(buf[end], start < end) && end != 0 {
        lemma_trim_end_before(buf, start, end - 1);
    }
}

/// The byte range `[start, end)` of a token's text in `buf`, or `None` where taking it fails.
pub open spec fn text_range(buf: Seq<u8>, token: Token) -> Option<(int, int)> {
    if token.end_offset == 0 {
        None
    } else {
        match trim_start(buf, token.start_offset as int, token.end_offset - 1) {
            None => None,
            Some(s) => match trim_end(buf, s, token.end_offset - 1) {
                None => None,
                Some(e) => if s <= e + 1 {
                    Some((s, e + 1))
                } else {
                    None
                },
            },
        }
    }
}

/// The bytes a token stands for, blanks at both ends removed.
pub open spec fn token_bytes(buf: Seq<u8>, token: Token) -> Seq<u8> {
    let (s, e) = text_range(buf, token).unwrap();
    buf.subrange(s, e)
}

impl Token {
    /// Creates a new token, usually done by the tokenizer
    pub fn new(
        token_type: TokenTypes,
        code_data: Option<TokenCodeData>,
        start: (u32, u32),
        start_offset: usize,
        end: (u32, u32),
        end_offset: usize,
    ) -> (t: Self)
        ensures
            t == (Token { token_type, start, start_offset, end, end_offset, code_data }),
    {
        Self { token_type, start, start_offset, end, end_offset, code_data }
    }

    /// Turns the token into the string it points to, without the blanks around it.
    pub fn to_string(&self, buffer: &[u8]) -> (s: String)
        requires
            text_range(buffer@, *self) is Some,
        ensures
            s@ == utf8_lossy(token_bytes(buffer@, *self)),
            valid_utf8(token_bytes(buffer@, *self)) ==> s@ == decode_utf8(token_bytes(buffer@, *self)),
    {
        let mut start = self.start_offset;
        let mut end = self.end_offset - 1;
        proof {
            lemma_trim_start_after(buffer@, start as int, end as int);
        }
        while buffer[start] == 32 || buffer[start] == 9 || buffer[start] == 13 || (buffer[start] == 10
            && start < end)
            invariant
                trim_start(buffer@, start as int, end as int) == trim_start(
                    buffer@,
                    self.start_offset as int,
                    self.end_offset - 1,
                ),
                trim_start(buffer@, start as int, end as int) is Some,
                start <= trim_start(buffer@, start as int, end as int).unwrap(),
                end == self.end_offset - 1,
            decreases buffer@.len() - start,
        {
            start += 1;
            proof {
                lemma_trim_start_after(buffer@, start as int, end as int);
            }
        }
        let ghost s = start as int;
        proof {
            lemma_trim_end_before(buffer@, s, end as int);
        }
        while buffer[end] == 32 || buffer[end] == 9 || buffer[end] == 13 || (buffer[end] == 10 && start
            < end)
            invariant
                start == s,
                trim_end(buffer@, s, end as int) == trim_end(buffer@, s, self.end_offset - 1),
                trim_end(buffer@, s, end as int) is Some,
                end >= trim_end(buffer@, s, end as int).unwrap(),
            decreases end,
        {
            end -= 1;
            proof {
                lemma_trim_end_before(buffer@, s, end as int);
            }
        }
        lossy_string(&buffer[start..end + 1])
    }
}

/// A token together with the name of the file it comes from, for reporting errors.
#[derive(Clone, Debug)]
pub struct CodeErrorToken {
    /// The token
    pub token: Token,
    /// The file the token is in
    pub file_name: String,
}

impl CodeErrorToken {
    /// Pairs a token with its file name
    pub fn new(token: Token, file_name: String) -> (t: Self)
        ensures
            t.token == token,
            t.file_name == file_name,
    {
        Self { token, file_name }
    }

    /// Moves the end of the token to the end of `end_token`
    pub fn change_token_end(&mut self, end_token: &Token)
        ensures
            final(self).token == (Token { end: end_token.end, end_offset: end_token.end_offset, ..old(self).token }),
            final(self).file_name == old(self).file_name,
    {
        self.token.end = end_token.end;
        self.token.end_offset = end_token.end_offset;
    }

    /// An error token with no position and no file
    pub fn make_empty() -> (t: Self)
        ensures
            t.token == (Token {
                token_type: TokenTypes::Colon,
                start: (0, 0),
                start_offset: 0,
                end: (0, 0),
                end_offset: 0,
                code_data: None,
            }),
            t.file_name@ == Seq::<char>::empty(),
    {
        Self {
            token: Token::new(TokenTypes::Colon, None, (0, 0), 0, (0, 0), 0),
            file_name: String::new(),
        }
    }
}

} // verus!
