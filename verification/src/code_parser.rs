//! What the code parser does with each token of a line.
//!
//! Reading a line alternates between this decision and the readers of the parts it names
//! (literals, statements, blocks, operators, calls), which build the line's effect.
use vstd::prelude::*;

use crate::code::{
    body_view, decimal, effect_view, effect_views, lemma_body_view, line_views, number_text, BodyView, CodeBody, EffectType, EffectView,
    Effects, Expression, KindView,
};
use crate::program::{same_kind, ExpressionType, ParseState, Span, UnparsedType};
use crate::type_parser::{generics_of, lemma_generics_advance, parse_generics, type_view, type_views, TypeView};
use crate::text::{chars_of, decimal_i64, parse_i64, str_eq, string_of};
use vstd::utf8::encode_utf8;
use vstd::string::StringExecFns;
use vstd::string::StrSliceExecFns;
use crate::tokens::{text_range, Token, TokenTypes};
use crate::top_parser::{token_text, ParserUtils};

verus! {

/// Whether a token at the given place starts a list of generic arguments: no space follows
/// the token in the source and the next token reads `<`.
pub open spec fn generic_at(tokens: Seq<Token>, buf: Seq<u8>, token: Token, next: int) -> bool {
    buf[token.end_offset as int] != 32 && token_text(buf, tokens[next]) == seq!['<']
}

/// Where `generic_at` can be asked: the next token exists, the byte after the token is in
/// the source and, where it is no space, the next token has a text.
pub open spec fn generic_safe(tokens: Seq<Token>, buf: Seq<u8>, token: Token, next: int) -> bool {
    &&& 0 <= next < tokens.len()
    &&& token.end_offset < buf.len()
    &&& buf[token.end_offset as int] != 32 ==> text_range(buf, tokens[next]) is Some
}

/// Whether the token is followed, without a space, by the generic arguments starting at the
/// token at the parser's index (see `generic_at`).
pub fn is_generic(token: &Token, parser_utils: &ParserUtils) -> (r: bool)
    requires
        generic_safe(parser_utils.tokens@, parser_utils.buffer@, *token, parser_utils.index as int),
    ensures
        r == generic_at(parser_utils.tokens@, parser_utils.buffer@, *token, parser_utils.index as int),
{
    generic_follows(token, parser_utils, parser_utils.index)
}

/// Whether the token is followed, without a space, by generic arguments starting at token
/// `next`.
fn generic_follows(token: &Token, parser_utils: &ParserUtils, next: usize) -> (r: bool)
    requires
        generic_safe(parser_utils.tokens@, parser_utils.buffer@, *token, next as int),
    ensures
        r == generic_at(parser_utils.tokens@, parser_utils.buffer@, *token, next as int),
{
    proof {
        reveal_strlit("<");
    }
    if parser_utils.buffer[token.end_offset] == 32 {
        return false;
    }
    let text = parser_utils.tokens[next].to_string(parser_utils.buffer);
    proof {
        assert("<"@ =~= seq!['<']);
    }
    str_eq(text.as_str(), "<")
}

/// Why a line cannot go on.
#[derive(Clone, Copy, Debug, PartialEq, Eq, Structural)]
pub enum LineError {
    /// A value where the line already has one
    UnexpectedValue,
    /// A `let` after a value
    UnexpectedLet,
    /// An `else` without an `if`
    UnexpectedElse,
    /// A field access with nothing to access it on
    ExtraSymbol,
}

/// What to do with a token of a line.
#[derive(Clone, Copy, Debug, PartialEq, Eq, Structural)]
pub enum LineStep {
    /// The line cannot go on
    Error(LineError),
    /// The line ends here; `back` whether the index steps back onto the token
    Finish { back: bool },
    /// The code block ends, with no line
    EndOfCode,
    /// Go on with the next token; `returning` whether the line now returns its value
    Skip { returning: bool },
    /// A literal (number, character, boolean or string) becomes the line's value
    Literal,
    /// A statement (`let`, `if`, `for`, `while`, `do`) is read and is the line
    Statement,
    /// The variable the token names becomes the line's value
    LoadVariable,
    /// A `new` expression is read as the line's value
    New,
    /// A block of code is read as the line's value
    Block,
    /// The rest of the line is read and assigned to the line's value
    Assign,
    /// An operator is read, the value so far on its left; `ends_line` whether it is the
    /// line at once
    Operator { ends_line: bool },
    /// A call of a generic method is read
    GenericMethod,
    /// The field the token names is loaded from the line's value
    LoadField,
    /// The method named by the token before is called, on the line's value if it has one
    MethodCall,
    /// A line in parentheses is read as the line's value
    Paren,
}

/// Tokens that cannot follow a value on a line.
pub open spec fn value_start(t: TokenTypes) -> bool {
    t == TokenTypes::Float || t == TokenTypes::Integer || t == TokenTypes::Char || t == TokenTypes::True || t
        == TokenTypes::False || t == TokenTypes::StringStart || t == TokenTypes::CodeEnd || t == TokenTypes::BlockEnd
        || t == TokenTypes::Let || t == TokenTypes::If || t == TokenTypes::For || t == TokenTypes::While || t
        == TokenTypes::Do
}

/// Whether the line is read inside an operator, where an operator is the line at once.
pub open spec fn in_operator(state: ParseState) -> bool {
    state == ParseState::InOperator || state == ParseState::ControlOperator
}

/// Whether the line is the variable of a control statement, which a block ends.
pub open spec fn in_control(state: ParseState) -> bool {
    state == ParseState::ControlVariable || state == ParseState::ControlOperator
}

/// What the code parser does with `token`, the index already past it, in `state`, where
/// `has_value` says whether the line has a value so far:
/// - a literal, the end of code or a statement keyword after a value is an error;
/// - a block end in a `new` expression ends the line; `return` makes the line return;
///   literals and statements are read; a line end, closing parenthesis or argument end
///   ends the line on that token; comments are skipped;
/// - an opening parenthesis calls the method named by a name or calling type before it,
///   else reads a line in parentheses; a period before another period is an operator;
/// - the end of code, a block end or the end of the file end the code;
/// - a name followed by `(` is left to the call, followed by an operator to a generic
///   method where generic arguments start there; else it is loaded (an error after a
///   value);
/// - `new` and a block are read (an error after a value), but a block ends the variable
///   of a control statement;
/// - an equals sign after a value and before anything but an operator or equals sign sets
///   the value, else it is an operator; an operator after a name or calling type that
///   starts generic arguments is a generic method call;
/// - a calling type not followed by `(` or generic arguments loads a field of the value
///   (an error without one); `else` is an error.
pub open spec fn line_decision(
    tokens: Seq<Token>,
    buf: Seq<u8>,
    index: int,
    token: Token,
    state: ParseState,
    has_value: bool,
) -> LineStep {
    let t = token.token_type;
    if has_value && value_start(t) {
        LineStep::Error(LineError::UnexpectedValue)
    } else if t == TokenTypes::BlockEnd && state == ParseState::New {
        LineStep::Finish { back: false }
    } else if t == TokenTypes::Return {
        LineStep::Skip { returning: true }
    } else if t == TokenTypes::Float || t == TokenTypes::Integer || t == TokenTypes::Char || t == TokenTypes::True
        || t == TokenTypes::False || t == TokenTypes::StringStart {
        LineStep::Literal
    } else if t == TokenTypes::Let || t == TokenTypes::If || t == TokenTypes::For || t == TokenTypes::While || t
        == TokenTypes::Do {
        LineStep::Statement
    } else if t == TokenTypes::LineEnd || t == TokenTypes::ParenClose || t == TokenTypes::ArgumentEnd {
        LineStep::Finish { back: true }
    } else if t == TokenTypes::Comment {
        LineStep::Skip { returning: false }
    } else if t == TokenTypes::ParenOpen {
        let last = tokens[index - 2].token_type;
        if last == TokenTypes::Variable || last == TokenTypes::CallingType {
            LineStep::MethodCall
        } else {
            LineStep::Paren
        }
    } else if t == TokenTypes::Period {
        if tokens[index].token_type == TokenTypes::Period {
            LineStep::Operator { ends_line: in_operator(state) }
        } else {
            LineStep::Skip { returning: false }
        }
    } else if t == TokenTypes::CodeEnd || t == TokenTypes::BlockEnd || t == TokenTypes::EOF {
        LineStep::EndOfCode
    } else if t == TokenTypes::Variable {
        let next = tokens[index].token_type;
        if next == TokenTypes::ParenOpen {
            LineStep::Skip { returning: false }
        } else if next == TokenTypes::Operator {
            if generic_at(tokens, buf, token, index) {
                LineStep::Skip { returning: false }
            } else {
                LineStep::LoadVariable
            }
        } else if has_value {
            LineStep::Error(LineError::UnexpectedValue)
        } else {
            LineStep::LoadVariable
        }
    } else if t == TokenTypes::New {
        if has_value {
            LineStep::Error(LineError::UnexpectedValue)
        } else {
            LineStep::New
        }
    } else if t == TokenTypes::BlockStart {
        if in_control(state) {
            LineStep::Finish { back: true }
        } else if has_value {
            LineStep::Error(LineError::UnexpectedValue)
        } else {
            LineStep::Block
        }
    } else if t == TokenTypes::Equals {
        let other = tokens[index].token_type;
        if has_value && other != TokenTypes::Operator && other != TokenTypes::Equals {
            LineStep::Assign
        } else {
            LineStep::Operator { ends_line: in_operator(state) }
        }
    } else if t == TokenTypes::Operator {
        let last = tokens[index - 2];
        if (last.token_type == TokenTypes::Variable || last.token_type == TokenTypes::CallingType) && generic_at(
            tokens,
            buf,
            last,
            index - 1,
        ) {
            LineStep::GenericMethod
        } else {
            LineStep::Operator { ends_line: in_operator(state) }
        }
    } else if t == TokenTypes::CallingType {
        if tokens[index].token_type == TokenTypes::ParenOpen || generic_at(tokens, buf, token, index) {
            LineStep::Skip { returning: false }
        } else if has_value {
            LineStep::LoadField
        } else {
            LineStep::Error(LineError::ExtraSymbol)
        }
    } else {
        LineStep::Error(LineError::UnexpectedElse)
    }
}

/// Whether a token can start or continue a line at all (the parser has no rule for the
/// others).
pub open spec fn line_token(t: TokenTypes) -> bool {
    value_start(t) || t == TokenTypes::Return || t == TokenTypes::LineEnd || t == TokenTypes::ParenClose || t
        == TokenTypes::ArgumentEnd || t == TokenTypes::Comment || t == TokenTypes::ParenOpen || t == TokenTypes::Period
        || t == TokenTypes::EOF || t == TokenTypes::Variable || t == TokenTypes::New || t == TokenTypes::BlockStart
        || t == TokenTypes::Equals || t == TokenTypes::Operator || t == TokenTypes::CallingType || t == TokenTypes::Else
}

/// Where `line_decision` reads only tokens and bytes that exist: the token is one a line
/// can hold, and the tokens before or after it that the decision looks at are there.
pub open spec fn line_safe(tokens: Seq<Token>, buf: Seq<u8>, index: int, token: Token, state: ParseState, has_value: bool) -> bool {
    let t = token.token_type;
    &&& line_token(t)
    &&& !(has_value && value_start(t)) ==> {
        &&& t == TokenTypes::ParenOpen ==> 2 <= index <= tokens.len() + 1
        &&& (t == TokenTypes::Period || t == TokenTypes::Equals) ==> 0 <= index < tokens.len()
        &&& t == TokenTypes::Variable ==> {
            &&& 0 <= index < tokens.len()
            &&& tokens[index].token_type == TokenTypes::Operator ==> generic_safe(tokens, buf, token, index)
        }
        &&& t == TokenTypes::Operator ==> {
            &&& 2 <= index <= tokens.len()
            &&& (tokens[index - 2].token_type == TokenTypes::Variable || tokens[index - 2].token_type
                == TokenTypes::CallingType) ==> generic_safe(tokens, buf, tokens[index - 2], index - 1)
        }
        &&& t == TokenTypes::CallingType ==> {
            &&& 0 <= index < tokens.len()
            &&& tokens[index].token_type != TokenTypes::ParenOpen ==> generic_safe(tokens, buf, token, index)
        }
    }
}

/// What the code parser does with `token`, the parser's index already past it (see
/// `line_decision`).
pub fn line_step(parser_utils: &ParserUtils, token: Token, state: ParseState, has_value: bool) -> (r: LineStep)
    requires
        line_safe(parser_utils.tokens@, parser_utils.buffer@, parser_utils.index as int, token, state, has_value),
    ensures
        r == line_decision(parser_utils.tokens@, parser_utils.buffer@, parser_utils.index as int, token, state, has_value),
{
    let t = token.token_type;
    let index = parser_utils.index;
    let in_op = state == ParseState::InOperator || state == ParseState::ControlOperator;
    if has_value {
        match t {
            TokenTypes::Float | TokenTypes::Integer | TokenTypes::Char | TokenTypes::True | TokenTypes::False
            | TokenTypes::StringStart | TokenTypes::CodeEnd | TokenTypes::BlockEnd | TokenTypes::Let | TokenTypes::If
            | TokenTypes::For | TokenTypes::While | TokenTypes::Do => {
                return LineStep::Error(LineError::UnexpectedValue);
            },
            _ => {},
        }
    }
    match t {
        TokenTypes::BlockEnd if state == ParseState::New => LineStep::Finish { back: false },
        TokenTypes::Return => LineStep::Skip { returning: true },
        TokenTypes::Float | TokenTypes::Integer | TokenTypes::Char | TokenTypes::True | TokenTypes::False
        | TokenTypes::StringStart => LineStep::Literal,
        TokenTypes::Let | TokenTypes::If | TokenTypes::For | TokenTypes::While | TokenTypes::Do => LineStep::Statement,
        TokenTypes::LineEnd | TokenTypes::ParenClose | TokenTypes::ArgumentEnd => LineStep::Finish { back: true },
        TokenTypes::Comment => LineStep::Skip { returning: false },
        TokenTypes::ParenOpen => {
            let last = parser_utils.tokens[index - 2].token_type;
            if last == TokenTypes::Variable || last == TokenTypes::CallingType {
                LineStep::MethodCall
            } else {
                LineStep::Paren
            }
        },
        TokenTypes::Period => {
            if parser_utils.tokens[index].token_type == TokenTypes::Period {
                LineStep::Operator { ends_line: in_op }
            } else {
                LineStep::Skip { returning: false }
            }
        },
        TokenTypes::CodeEnd | TokenTypes::BlockEnd | TokenTypes::EOF => LineStep::EndOfCode,
        TokenTypes::Variable => {
            let next = parser_utils.tokens[index].token_type;
            if next == TokenTypes::ParenOpen {
                LineStep::Skip { returning: false }
            } else if next == TokenTypes::Operator {
                if is_generic(&token, parser_utils) {
                    LineStep::Skip { returning: false }
                } else {
                    LineStep::LoadVariable
                }
            } else if has_value {
                LineStep::Error(LineError::UnexpectedValue)
            } else {
                LineStep::LoadVariable
            }
        },
        TokenTypes::New => {
            if has_value {
                LineStep::Error(LineError::UnexpectedValue)
            } else {
                LineStep::New
            }
        },
        TokenTypes::BlockStart => {
            if state == ParseState::ControlVariable || state == ParseState::ControlOperator {
                LineStep::Finish { back: true }
            } else if has_value {
                LineStep::Error(LineError::UnexpectedValue)
            } else {
                LineStep::Block
            }
        },
        TokenTypes::Equals => {
            let other = parser_utils.tokens[index].token_type;
            if has_value && other != TokenTypes::Operator && other != TokenTypes::Equals {
                LineStep::Assign
            } else {
                LineStep::Operator { ends_line: in_op }
            }
        },
        TokenTypes::Operator => {
            let last = parser_utils.tokens[index - 2];
            if (last.token_type == TokenTypes::Variable || last.token_type == TokenTypes::CallingType)
                && generic_follows(&last, parser_utils, index - 1) {
                LineStep::GenericMethod
            } else {
                LineStep::Operator { ends_line: in_op }
            }
        },
        TokenTypes::CallingType => {
            if parser_utils.tokens[index].token_type == TokenTypes::ParenOpen || is_generic(&token, parser_utils) {
                LineStep::Skip { returning: false }
            } else if has_value {
                LineStep::LoadField
            } else {
                LineStep::Error(LineError::ExtraSymbol)
            }
        },
        _ => LineStep::Error(LineError::UnexpectedElse),
    }
}

/// Whether a character is ASCII.
pub open spec fn ascii(c: char) -> bool {
    (c as u32) < 128
}

/// The value of a hexadecimal digit, either case.
pub open spec fn hex_value(c: char) -> Option<int> {
    if '0' <= c <= '9' {
        Some(c as int - 48)
    } else if 'a' <= c <= 'f' {
        Some(c as int - 87)
    } else if 'A' <= c <= 'F' {
        Some(c as int - 55)
    } else {
        None
    }
}

/// The byte that `u8::from_str_radix` reads from two characters in base 16: an optional
/// `+` sign followed by hexadecimal digits.
pub open spec fn hex_byte(a: char, b: char) -> Option<int> {
    if a == '+' {
        hex_value(b)
    } else {
        match (hex_value(a), hex_value(b)) {
            (Some(x), Some(y)) => Some(16 * x + y),
            _ => None,
        }
    }
}

/// What an escape token stands for, given its text (what comes before the escape, then the
/// escape): an escape whose third last character is `x` is a hexadecimal byte, the last two
/// characters its digits and the four last ones the escape; otherwise the last character
/// names the escape (`n`, `t`, `r`, a backslash or a quote) and the two last ones are the
/// escape. The text before the escape comes first. `None` for any other escape, and where
/// the escape's characters are not all ASCII.
pub open spec fn escape_text(f: Seq<char>) -> Option<Seq<char>> {
    let n = f.len();
    if n < 2 || !ascii(f[n - 1]) || !ascii(f[n - 2]) {
        None
    } else if n >= 3 && f[n - 3] == 'x' {
        if n < 4 || !ascii(f[n - 4]) {
            None
        } else {
            match hex_byte(f[n - 2], f[n - 1]) {
                Some(v) => Some(f.take(n - 4).push(v as char)),
                None => None,
            }
        }
    } else {
        let c = f[n - 1];
        let escaped = if c == 'n' {
            Some('\n')
        } else if c == 't' {
            Some('\t')
        } else if c == 'r' {
            Some('\r')
        } else if c == '\\' {
            Some('\\')
        } else if c == '\'' {
            Some('\'')
        } else if c == '"' {
            Some('"')
        } else if c == 'x' {
            match hex_byte(f[n - 2], f[n - 1]) {
                Some(v) => Some(v as char),
                None => None,
            }
        } else {
            None
        };
        match escaped {
            Some(e) => Some(f.take(n - 2).push(e)),
            None => None,
        }
    }
}

/// The text of a string read from token `i` on, and the index past its end: a string start
/// is skipped, an escape adds what it stands for, and the string's end adds its text
/// without the closing quote. `None` where the tokens run out, a token has no text or is of
/// another kind, an escape cannot be read, or the end's last character is not ASCII.
pub open spec fn string_run(tokens: Seq<Token>, buf: Seq<u8>, i: int) -> Option<(int, Seq<char>)>
    decreases tokens.len() - i,
{
    if i < 0 || i >= tokens.len() {
        None
    } else {
        let t = tokens[i];
        if t.token_type == TokenTypes::StringStart {
            string_run(tokens, buf, i + 1)
        } else if t.token_type == TokenTypes::StringEnd || t.token_type == TokenTypes::StringEscape {
            if text_range(buf, t) is None {
                None
            } else {
                let f = token_text(buf, t);
                if t.token_type == TokenTypes::StringEnd {
                    if f.len() == 0 || !ascii(f.last()) {
                        None
                    } else {
                        Some((i + 1, f.drop_last()))
                    }
                } else {
                    match escape_text(f) {
                        None => None,
                        Some(piece) => match string_run(tokens, buf, i + 1) {
                            Some((end, rest)) => Some((end, piece + rest)),
                            None => None,
                        },
                    }
                }
            }
        } else {
            None
        }
    }
}

/// Where a read string ends.
pub open spec fn run_end(r: Option<(int, Seq<char>)>) -> int {
    match r {
        Some((end, _)) => end,
        None => 0,
    }
}

/// The text of a read string.
pub open spec fn run_text(r: Option<(int, Seq<char>)>) -> Seq<char> {
    match r {
        Some((_, text)) => text,
        None => Seq::empty(),
    }
}

/// The value of a hexadecimal digit.
fn hex_digit(c: char) -> (r: Option<u32>)
    ensures
        match hex_value(c) {
            Some(v) => r == Some(v as u32),
            None => r is None,
        },
{
    let code = c as u32;
    if '0' <= c && c <= '9' {
        Some(code - 48)
    } else if 'a' <= c && c <= 'f' {
        Some(code - 87)
    } else if 'A' <= c && c <= 'F' {
        Some(code - 55)
    } else {
        None
    }
}

/// A byte read from two characters in base 16 (see `hex_byte`).
fn read_hex_byte(a: char, b: char) -> (r: Option<u8>)
    ensures
        match hex_byte(a, b) {
            Some(v) => r == Some(v as u8) && 0 <= v < 256,
            None => r is None,
        },
{
    if a == '+' {
        match hex_digit(b) {
            Some(y) => Some(y as u8),
            None => None,
        }
    } else {
        match (hex_digit(a), hex_digit(b)) {
            (Some(x), Some(y)) => Some((16 * x + y) as u8),
            _ => None,
        }
    }
}

/// What an escape token's text stands for (see `escape_text`).
fn read_escape(f: &Vec<char>) -> (r: Option<Vec<char>>)
    ensures
        match escape_text(f@) {
            Some(t) => r matches Some(v) && v@ == t,
            None => r is None,
        },
{
    let n = f.len();
    if n < 2 || (f[n - 1] as u32) >= 128 || (f[n - 2] as u32) >= 128 {
        return None;
    }
    let hex = n >= 3 && f[n - 3] == 'x';
    let (keep, escaped) = if hex {
        if n < 4 || (f[n - 4] as u32) >= 128 {
            return None;
        }
        match read_hex_byte(f[n - 2], f[n - 1]) {
            Some(v) => (n - 4, v as char),
            None => {
                return None;
            },
        }
    } else {
        let c = f[n - 1];
        let e = if c == 'n' {
            '\n'
        } else if c == 't' {
            '\t'
        } else if c == 'r' {
            '\r'
        } else if c == '\\' {
            '\\'
        } else if c == '\'' {
            '\''
        } else if c == '"' {
            '"'
        } else if c == 'x' {
            match read_hex_byte(f[n - 2], f[n - 1]) {
                Some(v) => v as char,
                None => {
                    return None;
                },
            }
        } else {
            return None;
        };
        (n - 2, e)
    };
    let mut out: Vec<char> = Vec::new();
    let mut i: usize = 0;
    while i < keep
        invariant
            i <= keep <= f@.len(),
            out@ == f@.take(i as int),
        decreases keep - i,
    {
        out.push(f[i]);
        proof {
            assert(out@ =~= f@.take(i + 1));
        }
        i += 1;
    }
    out.push(escaped);
    Some(out)
}

/// Reads a string literal from its tokens into a text effect, the text ending with a null
/// character (see `string_run`); the effect's span is the string's end token.
pub fn parse_string(parser_utils: &mut ParserUtils) -> (r: Effects)
    requires
        string_run(old(parser_utils).tokens@, old(parser_utils).buffer@, old(parser_utils).index as int) is Some,
    ensures
        ({
            let (end, text) = string_run(
                old(parser_utils).tokens@,
                old(parser_utils).buffer@,
                old(parser_utils).index as int,
            )->0;
            &&& final(parser_utils).index == end
            &&& effect_view(r) == (EffectView {
                kind: KindView::Text(text.push('\0')),
                span: Span { file: old(parser_utils).file, start: (end - 1) as usize, end: (end - 1) as usize },
            })
        }),
        final(parser_utils).tokens == old(parser_utils).tokens,
        final(parser_utils).buffer == old(parser_utils).buffer,
        final(parser_utils).file == old(parser_utils).file,
        final(parser_utils).file_name == old(parser_utils).file_name,
        final(parser_utils).imports == old(parser_utils).imports,
{
    let ghost tokens = parser_utils.tokens@;
    let ghost buf = parser_utils.buffer@;
    let ghost whole = string_run(tokens, buf, parser_utils.index as int)->0;
    let mut text: Vec<char> = Vec::new();
    proof {
        assert(text@ + whole.1 =~= whole.1);
    }
    loop
        invariant
            parser_utils.tokens == old(parser_utils).tokens,
            parser_utils.buffer == old(parser_utils).buffer,
            parser_utils.file == old(parser_utils).file,
            parser_utils.file_name == old(parser_utils).file_name,
            parser_utils.imports == old(parser_utils).imports,
            tokens == parser_utils.tokens@,
            buf == parser_utils.buffer@,
            whole == string_run(tokens, buf, old(parser_utils).index as int)->0,
            string_run(tokens, buf, parser_utils.index as int) is Some,
            run_end(string_run(tokens, buf, parser_utils.index as int)) == whole.0,
            text@ + run_text(string_run(tokens, buf, parser_utils.index as int)) == whole.1,
        decreases tokens.len() - parser_utils.index,
    {
        let i = parser_utils.index;
        let count = parser_utils.tokens.len();
        proof {
            assert(i < count);
        }
        let token = parser_utils.tokens[i];
        let ghost here = string_run(tokens, buf, i as int)->0;
        parser_utils.index = i + 1;
        if token.token_type == TokenTypes::StringEnd {
            let found = chars_of(token.to_string(parser_utils.buffer).as_str());
            let ghost before = text@;
            append_chars(&mut text, &found, found.len() - 1);
            proof {
                assert(found@.take(found@.len() - 1) =~= found@.drop_last());
                assert(text@ == whole.1);
            }
            text.push('\0');
            let out = string_of(text.as_slice());
            return Effects { types: EffectType::Text(out), span: Span::new(parser_utils.file, i) };
        } else if token.token_type == TokenTypes::StringEscape {
            let found = chars_of(token.to_string(parser_utils.buffer).as_str());
            let piece = read_escape(&found).unwrap();
            let ghost before = text@;
            append_chars(&mut text, &piece, piece.len());
            proof {
                assert(piece@.take(piece@.len() as int) =~= piece@);
                assert(before + (piece@ + run_text(string_run(tokens, buf, i + 1))) =~= text@ + run_text(string_run(
                    tokens,
                    buf,
                    i + 1,
                )));
            }
        }
    }
}

/// Adds the first `count` characters of a list to a text.
fn append_chars(text: &mut Vec<char>, from: &Vec<char>, count: usize)
    requires
        count <= from@.len(),
    ensures
        final(text)@ == old(text)@ + from@.take(count as int),
{
    let mut k: usize = 0;
    while k < count
        invariant
            k <= count <= from@.len(),
            text@ == old(text)@ + from@.take(k as int),
        decreases count - k,
    {
        text.push(from[k]);
        proof {
            assert(text@ =~= old(text)@ + from@.take(k + 1));
        }
        k += 1;
    }
}
/// The effect a literal token becomes at token index `index` of the file: a float keeps its
/// text, an integer its decimal value, a character the second byte of its text (after the
/// opening quote), and `true` and `false` their booleans. `None` for an integer whose text
/// is no `i64`, a character whose text has fewer than two bytes, and any other token.
pub open spec fn literal_view(buf: Seq<u8>, token: Token, file: u64, index: int) -> Option<EffectView> {
    let span = Span { file, start: index as usize, end: index as usize };
    let text = token_text(buf, token);
    let kind = if token.token_type == TokenTypes::Float {
        Some(KindView::Float(text))
    } else if token.token_type == TokenTypes::Integer {
        match decimal_i64(text) {
            Some(v) => Some(KindView::Int(v)),
            None => None,
        }
    } else if token.token_type == TokenTypes::Char {
        let bytes = encode_utf8(text);
        if bytes.len() >= 2 {
            Some(KindView::Char(bytes[1] as char))
        } else {
            None
        }
    } else if token.token_type == TokenTypes::True {
        Some(KindView::Bool(true))
    } else if token.token_type == TokenTypes::False {
        Some(KindView::Bool(false))
    } else {
        None
    };
    match kind {
        Some(k) => Some(EffectView { kind: k, span }),
        None => None,
    }
}

/// The effect of a literal token, past which the parser's index stands (see `literal_view`).
pub fn literal_effect(parser_utils: &ParserUtils, token: Token) -> (r: Effects)
    requires
        text_range(parser_utils.buffer@, token) is Some || token.token_type == TokenTypes::True
            || token.token_type == TokenTypes::False,
        literal_view(parser_utils.buffer@, token, parser_utils.file, parser_utils.index as int) is Some,
    ensures
        Some(effect_view(r)) == literal_view(parser_utils.buffer@, token, parser_utils.file, parser_utils.index as int),
{
    let span = Span::new(parser_utils.file, parser_utils.index);
    let types = match token.token_type {
        TokenTypes::True => EffectType::Bool(true),
        TokenTypes::False => EffectType::Bool(false),
        TokenTypes::Float => EffectType::Float(token.to_string(parser_utils.buffer)),
        TokenTypes::Integer => {
            let text = token.to_string(parser_utils.buffer);
            EffectType::Int(parse_i64(text.as_str()).unwrap())
        },
        _ => {
            let text = token.to_string(parser_utils.buffer);
            let bytes = text.as_str().as_bytes_vec();
            EffectType::Char(bytes[1] as char)
        },
    };
    Effects { types, span }
}

/// The effect that loads the variable a token names, past which the parser's index stands.
pub fn load_variable_effect(parser_utils: &ParserUtils, token: Token) -> (r: Effects)
    requires
        text_range(parser_utils.buffer@, token) is Some,
    ensures
        effect_view(r) == (EffectView {
            kind: KindView::LoadVariable(token_text(parser_utils.buffer@, token)),
            span: Span { file: parser_utils.file, start: parser_utils.index, end: parser_utils.index },
        }),
{
    Effects {
        types: EffectType::LoadVariable(token.to_string(parser_utils.buffer)),
        span: Span::new(parser_utils.file, parser_utils.index),
    }
}

/// The effect that loads the field a token names from the line's value, past which the
/// parser's index stands.
pub fn load_field_effect(parser_utils: &ParserUtils, value: Effects, token: Token) -> (r: Effects)
    requires
        text_range(parser_utils.buffer@, token) is Some,
    ensures
        effect_view(r) == (EffectView {
            kind: KindView::Load(Box::new(effect_view(value)), token_text(parser_utils.buffer@, token)),
            span: Span { file: parser_utils.file, start: parser_utils.index, end: parser_utils.index },
        }),
{
    Effects {
        types: EffectType::Load(Box::new(value), token.to_string(parser_utils.buffer)),
        span: Span::new(parser_utils.file, parser_utils.index),
    }
}

/// A block of code being read: its lines so far and how the block ends.
pub struct CodeParse {
    /// The lines read so far
    pub lines: Vec<Expression>,
    /// How the block ends: as the last line that is no plain line, else as a line
    pub returning: ExpressionType,
}

/// What reading a block of code does after a line was read.
pub enum CodeStep {
    /// Read the next line
    Continue(CodeParse),
    /// The block is read: how it ends and its body
    Done(ExpressionType, CodeBody),
}

/// One step of reading a block of code at token `index` with the last label id `last_id`,
/// given the line just read: a line is added (a line that is no plain line sets how the
/// block ends) and a line end after it is passed; no line ends the block, which takes the
/// next label id. The index and the last label id afterwards, and the lines so far or how
/// the block ends and its body.
pub open spec fn code_next(
    tokens: Seq<Token>,
    index: int,
    last_id: int,
    lines: Seq<(ExpressionType, EffectView)>,
    returning: ExpressionType,
    line: Option<(ExpressionType, EffectView)>,
) -> (int, int, Result<(Seq<(ExpressionType, EffectView)>, ExpressionType), (ExpressionType, BodyView)>) {
    match line {
        Some(l) => (
            if tokens[index].token_type == TokenTypes::LineEnd { index + 1 } else { index },
            last_id,
            Ok((lines.push(l), if !same_kind(l.0, ExpressionType::Line) { l.0 } else { returning })),
        ),
        None => (index, last_id + 1, Err((returning, BodyView { label: decimal(last_id as nat), lines }))),
    }
}

/// One step of reading a block of code (see `code_next`): a line read needs a token at
/// the index, and the end of the block a label id left.
pub fn code_step(parser_utils: &mut ParserUtils, parse: CodeParse, line: Option<Expression>) -> (r: CodeStep)
    requires
        line is Some ==> old(parser_utils).index < old(parser_utils).tokens@.len(),
        line is None ==> old(parser_utils).imports.last_id < u32::MAX,
    ensures
        ({
            let (index, last_id, outcome) = code_next(
                old(parser_utils).tokens@,
                old(parser_utils).index as int,
                old(parser_utils).imports.last_id as int,
                line_views(parse.lines@),
                parse.returning,
                match line {
                    Some(l) => Some((l.expression_type, effect_view(l.effect))),
                    None => None,
                },
            );
            &&& final(parser_utils).index == index
            &&& final(parser_utils).imports.last_id == last_id
            &&& match (outcome, r) {
                (Ok((lines, returning)), CodeStep::Continue(p)) => line_views(p.lines@) == lines && p.returning == returning,
                (Err((returning, body)), CodeStep::Done(t, b)) => t == returning && body_view(b) == body,
                _ => false,
            }
        }),
        final(parser_utils).tokens == old(parser_utils).tokens,
        final(parser_utils).buffer == old(parser_utils).buffer,
        final(parser_utils).file == old(parser_utils).file,
        final(parser_utils).file_name == old(parser_utils).file_name,
        final(parser_utils).imports.imports == old(parser_utils).imports.imports,
        final(parser_utils).imports.generics == old(parser_utils).imports.generics,
        final(parser_utils).imports.parent == old(parser_utils).imports.parent,
{
    let mut parse = parse;
    match line {
        Some(expression) => {
            if expression.expression_type != ExpressionType::Line {
                parse.returning = expression.expression_type;
            }
            let ghost before = parse.lines@;
            parse.lines.push(expression);
            proof {
                assert(line_views(parse.lines@) =~= line_views(before).push(
                    (expression.expression_type, effect_view(expression.effect)),
                ));
            }
            let index = parser_utils.index;
            let count = parser_utils.tokens.len();
            if index < count && parser_utils.tokens[index].token_type == TokenTypes::LineEnd {
                parser_utils.index = index + 1;
            }
            CodeStep::Continue(parse)
        },
        None => {
            let id = parser_utils.imports.last_id;
            parser_utils.imports.last_id = id + 1;
            let body = CodeBody { label: number_text(id), expressions: parse.lines };
            proof {
                lemma_body_view(body);
            }
            CodeStep::Done(parse.returning, body)
        },
    }
}

/// The arguments of a call being read: those read so far, and the token index the first
/// one starts at.
pub struct ArgsParse {
    /// The arguments read so far
    pub effects: Vec<Effects>,
    /// Where the first argument starts
    pub start: usize,
}

/// What reading the arguments of a call asks for next.
pub enum ArgsStep {
    /// Read an argument as a line
    Continue(ArgsParse),
    /// The arguments are read, the closing parenthesis passed
    Done(Vec<Effects>),
}

/// The arguments of a call before any was read, at token `index`: none where a closing
/// parenthesis follows (which is passed), else the first is read, the arguments starting
/// at the index.
pub fn args_start(parser_utils: &mut ParserUtils) -> (r: ArgsStep)
    requires
        old(parser_utils).index < old(parser_utils).tokens@.len(),
    ensures
        old(parser_utils).tokens@[old(parser_utils).index as int].token_type == TokenTypes::ParenClose ==> {
            &&& final(parser_utils).index == old(parser_utils).index + 1
            &&& r matches ArgsStep::Done(list) && list@.len() == 0
        },
        old(parser_utils).tokens@[old(parser_utils).index as int].token_type != TokenTypes::ParenClose ==> {
            &&& final(parser_utils).index == old(parser_utils).index
            &&& r matches ArgsStep::Continue(p) && p.effects@.len() == 0 && p.start == old(parser_utils).index
        },
        final(parser_utils).tokens == old(parser_utils).tokens,
        final(parser_utils).buffer == old(parser_utils).buffer,
        final(parser_utils).file == old(parser_utils).file,
        final(parser_utils).file_name == old(parser_utils).file_name,
        final(parser_utils).imports == old(parser_utils).imports,
{
    let index = parser_utils.index;
    let count = parser_utils.tokens.len();
    if index < count && parser_utils.tokens[index].token_type == TokenTypes::ParenClose {
        parser_utils.index = index + 1;
        ArgsStep::Done(Vec::new())
    } else {
        ArgsStep::Continue(ArgsParse { effects: Vec::new(), start: index })
    }
}

/// One step of reading the arguments of a call, after an argument was read as a line: a
/// found argument is added, its span stretched back to where the arguments start, and an
/// argument end after it leads to the next argument (passed); otherwise, and where no
/// argument was found, the token after the arguments is passed and they are read.
pub fn args_step(parser_utils: &mut ParserUtils, parse: ArgsParse, argument: Option<Expression>) -> (r: ArgsStep)
    requires
        argument is Some ==> old(parser_utils).index < old(parser_utils).tokens@.len(),
        old(parser_utils).index < usize::MAX,
    ensures
        ({
            let more = argument is Some && old(parser_utils).tokens@[old(parser_utils).index as int].token_type
                == TokenTypes::ArgumentEnd;
            let effects = match argument {
                Some(a) => effect_views(parse.effects@).push(
                    EffectView {
                        kind: effect_view(a.effect).kind,
                        span: Span { start: parse.start, ..a.effect.span },
                    },
                ),
                None => effect_views(parse.effects@),
            };
            &&& final(parser_utils).index == old(parser_utils).index + 1
            &&& if more {
                r matches ArgsStep::Continue(p) && effect_views(p.effects@) == effects && p.start == parse.start
            } else {
                r matches ArgsStep::Done(list) && effect_views(list@) == effects
            }
        }),
        final(parser_utils).tokens == old(parser_utils).tokens,
        final(parser_utils).buffer == old(parser_utils).buffer,
        final(parser_utils).file == old(parser_utils).file,
        final(parser_utils).file_name == old(parser_utils).file_name,
        final(parser_utils).imports == old(parser_utils).imports,
{
    let mut parse = parse;
    let ghost before = parse.effects@;
    let index = parser_utils.index;
    parser_utils.index = index + 1;
    match argument {
        Some(expression) => {
            let mut effect = expression.effect;
            effect.span.start = parse.start;
            parse.effects.push(effect);
            proof {
                assert(effect_views(parse.effects@) =~= effect_views(before).push(effect_view(effect)));
            }
            if parser_utils.tokens[index].token_type == TokenTypes::ArgumentEnd {
                ArgsStep::Continue(parse)
            } else {
                ArgsStep::Done(parse.effects)
            }
        },
        None => ArgsStep::Done(parse.effects),
    }
}

/// Why a `let` statement cannot be read.
#[derive(Clone, Copy, Debug, PartialEq, Eq, Structural)]
pub enum LetError {
    /// No variable name follows `let`
    UnexpectedToken,
    /// No equals sign follows the name
    UnexpectedSymbol,
    /// No value follows the equals sign
    UnexpectedVoid,
}

/// The start of a `let` statement at token `index`: the variable's name and the equals
/// sign are passed, and the name's text and the span starting after them are given; an
/// error at the index where the name or the equals sign is missing.
pub fn let_start(parser_utils: &mut ParserUtils) -> (r: Result<(String, Span), (LetError, Span)>)
    requires
        old(parser_utils).index < old(parser_utils).tokens@.len(),
        old(parser_utils).tokens@[old(parser_utils).index as int].token_type == TokenTypes::Variable ==> {
            &&& text_range(old(parser_utils).buffer@, old(parser_utils).tokens@[old(parser_utils).index as int]) is Some
            &&& old(parser_utils).index + 1 < old(parser_utils).tokens@.len()
        },
    ensures
        ({
            let tokens = old(parser_utils).tokens@;
            let i = old(parser_utils).index as int;
            let here = Span { file: old(parser_utils).file, start: i as usize, end: i as usize };
            if tokens[i].token_type != TokenTypes::Variable {
                r == Err::<(String, Span), (LetError, Span)>((LetError::UnexpectedToken, here)) && final(parser_utils).index == i
            } else if tokens[i + 1].token_type != TokenTypes::Equals {
                r == Err::<(String, Span), (LetError, Span)>((LetError::UnexpectedSymbol, here)) && final(parser_utils).index == i
            } else {
                &&& final(parser_utils).index == i + 2
                &&& r matches Ok((name, span)) && name@ == token_text(old(parser_utils).buffer@, tokens[i])
                    && span == (Span { file: old(parser_utils).file, start: (i + 2) as usize, end: (i + 2) as usize })
            }
        }),
        final(parser_utils).tokens == old(parser_utils).tokens,
        final(parser_utils).buffer == old(parser_utils).buffer,
        final(parser_utils).file == old(parser_utils).file,
        final(parser_utils).file_name == old(parser_utils).file_name,
        final(parser_utils).imports == old(parser_utils).imports,
{
    let index = parser_utils.index;
    let count = parser_utils.tokens.len();
    let next = parser_utils.tokens[index];
    if next.token_type != TokenTypes::Variable {
        return Err((LetError::UnexpectedToken, Span::new(parser_utils.file, index)));
    }
    let name = next.to_string(parser_utils.buffer);
    if index + 1 >= count || parser_utils.tokens[index + 1].token_type != TokenTypes::Equals {
        return Err((LetError::UnexpectedSymbol, Span::new(parser_utils.file, index)));
    }
    parser_utils.index = index + 2;
    Ok((name, Span::new(parser_utils.file, index + 2)))
}

/// The end of a `let` statement, after its value was read as a line: a variable created
/// from the value, its span stretched to two tokens before the index; an error at the
/// index where no value was found.
pub fn let_finish(parser_utils: &ParserUtils, name: String, span: Span, value: Option<Expression>) -> (r: Result<
    Effects,
    (LetError, Span),
>)
    requires
        value is Some ==> parser_utils.index >= 2,
    ensures
        match value {
            Some(v) => r matches Ok(e) && effect_view(e) == (EffectView {
                kind: KindView::CreateVariable(name@, Box::new(effect_view(v.effect))),
                span: Span { end: (parser_utils.index - 2) as usize, ..span },
            }),
            None => r == Err::<Effects, (LetError, Span)>(
                (LetError::UnexpectedVoid, Span { file: parser_utils.file, start: parser_utils.index, end: parser_utils.index }),
            ),
        },
{
    match value {
        Some(line) => {
            let mut span = span;
            span.extend_span(parser_utils.index - 2);
            Ok(Effects { types: EffectType::CreateVariable(name, Box::new(line.effect)), span })
        },
        None => Err((LetError::UnexpectedVoid, Span::new(parser_utils.file, parser_utils.index))),
    }
}

/// A line being read: its value so far and its type.
pub struct LineParse {
    /// The line's value so far
    pub effect: Option<Effects>,
    /// The type of the line
    pub expression_type: ExpressionType,
}

/// What reading a line does with its next token.
pub enum LineOutcome {
    /// Go on with the next token
    Continue(LineParse),
    /// The line ends here
    Line(LineParse),
    /// The code block ends, with no line
    EndOfCode,
    /// The line cannot go on: the error, made at the token
    Error(LineError, Span),
    /// A part is to be read by the code parser, as the decision says, the token and the
    /// line so far given back
    Read(LineStep, Token, LineParse),
}

/// The line's value as values.
pub open spec fn value_view(effect: Option<Effects>) -> Option<EffectView> {
    match effect {
        Some(e) => Some(effect_view(e)),
        None => None,
    }
}

/// Where a token of a line can be taken: it exists and `line_decision` can look at what it
/// needs, a literal or a name has a text, and a literal other than a string can be read.
pub open spec fn line_readable(tokens: Seq<Token>, buf: Seq<u8>, file: u64, index: int, state: ParseState, has_value: bool) -> bool {
    &&& 0 <= index < tokens.len()
    &&& line_safe(tokens, buf, index + 1, tokens[index], state, has_value)
    &&& {
        let t = tokens[index];
        let d = line_decision(tokens, buf, index + 1, t, state, has_value);
        &&& (d == LineStep::LoadVariable || d == LineStep::LoadField || (d == LineStep::Literal && t.token_type
            != TokenTypes::True && t.token_type != TokenTypes::False)) ==> text_range(buf, t) is Some
        &&& (d == LineStep::Literal && t.token_type != TokenTypes::StringStart) ==> literal_view(buf, t, file, index + 1) is Some
    }
}

/// Reads the next token of a line (see `line_decision`): the index passes it, then an error
/// is made at it; the line ends (the index back on the token where the decision says so);
/// the code ends; a `return` sets the line's type to a return there; a literal other than
/// a string, a variable or a field of the value becomes the value; comments and the
/// tokens left to later ones are skipped; anything else is to be read by the code parser.
pub fn line_advance(parser_utils: &mut ParserUtils, parse: LineParse, state: ParseState) -> (r: LineOutcome)
    requires
        line_readable(
            old(parser_utils).tokens@,
            old(parser_utils).buffer@,
            old(parser_utils).file,
            old(parser_utils).index as int,
            state,
            parse.effect is Some,
        ),
    ensures
        ({
            let tokens = old(parser_utils).tokens@;
            let buf = old(parser_utils).buffer@;
            let i = old(parser_utils).index as int;
            let t = tokens[i];
            let file = old(parser_utils).file;
            let d = line_decision(tokens, buf, i + 1, t, state, parse.effect is Some);
            let here = Span { file, start: i as usize, end: i as usize };
            let after = Span { file, start: (i + 1) as usize, end: (i + 1) as usize };
            match d {
                LineStep::Error(e) => r == LineOutcome::Error(e, here) && final(parser_utils).index == i + 1,
                LineStep::Finish { back } => {
                    &&& final(parser_utils).index == (if back { i } else { i + 1 })
                    &&& r matches LineOutcome::Line(p) && value_view(p.effect) == value_view(parse.effect)
                        && p.expression_type == parse.expression_type
                },
                LineStep::EndOfCode => r is EndOfCode && final(parser_utils).index == i + 1,
                LineStep::Skip { returning } => {
                    &&& final(parser_utils).index == i + 1
                    &&& r matches LineOutcome::Continue(p) && value_view(p.effect) == value_view(parse.effect)
                        && p.expression_type == (if returning { ExpressionType::Return(here) } else { parse.expression_type })
                },
                LineStep::Literal if t.token_type != TokenTypes::StringStart => {
                    &&& final(parser_utils).index == i + 1
                    &&& r matches LineOutcome::Continue(p) && value_view(p.effect) == literal_view(buf, t, file, i + 1)
                        && p.expression_type == parse.expression_type
                },
                LineStep::LoadVariable => {
                    &&& final(parser_utils).index == i + 1
                    &&& r matches LineOutcome::Continue(p) && value_view(p.effect) == Some(
                        EffectView { kind: KindView::LoadVariable(token_text(buf, t)), span: after },
                    ) && p.expression_type == parse.expression_type
                },
                LineStep::LoadField => {
                    &&& final(parser_utils).index == i + 1
                    &&& r matches LineOutcome::Continue(p) && value_view(p.effect) == Some(
                        EffectView {
                            kind: KindView::Load(Box::new(value_view(parse.effect)->0), token_text(buf, t)),
                            span: after,
                        },
                    ) && p.expression_type == parse.expression_type
                },
                _ => {
                    &&& final(parser_utils).index == i + 1
                    &&& r matches LineOutcome::Read(step, token, p) && step == d && token == t && value_view(p.effect)
                        == value_view(parse.effect) && p.expression_type == parse.expression_type
                },
            }
        }),
        final(parser_utils).tokens == old(parser_utils).tokens,
        final(parser_utils).buffer == old(parser_utils).buffer,
        final(parser_utils).file == old(parser_utils).file,
        final(parser_utils).file_name == old(parser_utils).file_name,
        final(parser_utils).imports == old(parser_utils).imports,
{
    let index = parser_utils.index;
    let count = parser_utils.tokens.len();
    proof {
        assert(index < count);
    }
    let token = parser_utils.tokens[index];
    parser_utils.index = index + 1;
    let here = Span::new(parser_utils.file, index);
    let step = line_step(parser_utils, token, state, parse.effect.is_some());
    let mut parse = parse;
    match step {
        LineStep::Error(e) => LineOutcome::Error(e, here),
        LineStep::Finish { back } => {
            if back {
                parser_utils.index = index;
            }
            LineOutcome::Line(parse)
        },
        LineStep::EndOfCode => LineOutcome::EndOfCode,
        LineStep::Skip { returning } => {
            if returning {
                parse.expression_type = ExpressionType::Return(here);
            }
            LineOutcome::Continue(parse)
        },
        LineStep::Literal => {
            if token.token_type == TokenTypes::StringStart {
                LineOutcome::Read(step, token, parse)
            } else {
                parse.effect = Some(literal_effect(parser_utils, token));
                LineOutcome::Continue(parse)
            }
        },
        LineStep::LoadVariable => {
            parse.effect = Some(load_variable_effect(parser_utils, token));
            LineOutcome::Continue(parse)
        },
        LineStep::LoadField => {
            let value = parse.effect.unwrap();
            parse.effect = Some(load_field_effect(parser_utils, value, token));
            LineOutcome::Continue(parse)
        },
        _ => LineOutcome::Read(step, token, parse),
    }
}

/// The type a `new` expression creates, read from token `i` on with the type so far `t`,
/// and the index past the block that starts its fields: a name becomes the type, an
/// operator starts generic arguments of the type (see `generics_of`), invalid characters
/// are skipped. `None` where the tokens run out, a name has no text, generic arguments
/// come before a type or cannot be read, the block comes before a type, or another token
/// comes.
pub open spec fn new_type_run(tokens: Seq<Token>, buf: Seq<u8>, file: u64, i: int, t: Option<TypeView>) -> Option<
    (int, TypeView),
>
    decreases tokens.len() - i,
{
    if i < 0 || i >= tokens.len() {
        None
    } else {
        let token = tokens[i];
        if token.token_type == TokenTypes::Variable {
            if text_range(buf, token) is None {
                None
            } else {
                new_type_run(
                    tokens,
                    buf,
                    file,
                    i + 1,
                    Some(TypeView::Basic(Span { file, start: i as usize, end: i as usize }, token_text(buf, token))),
                )
            }
        } else if token.token_type == TokenTypes::Operator {
            match t {
                None => None,
                Some(u) => match generics_of(tokens, buf, file, i + 1, u) {
                    None => None,
                    Some((j, g)) => if i < j <= tokens.len() {
                        new_type_run(tokens, buf, file, j, Some(g))
                    } else {
                        None
                    },
                },
            }
        } else if token.token_type == TokenTypes::BlockStart {
            match t {
                Some(u) => Some((i + 1, u)),
                None => None,
            }
        } else if token.token_type == TokenTypes::InvalidCharacters {
            new_type_run(tokens, buf, file, i + 1, t)
        } else {
            None
        }
    }
}

/// An optional type as values.
pub open spec fn opt_type_view(t: Option<UnparsedType>) -> Option<TypeView> {
    match t {
        Some(u) => Some(type_view(u)),
        None => None,
    }
}

/// Reads the type a `new` expression creates and passes the block that starts its fields
/// (see `new_type_run`).
pub fn new_type(parser_utils: &mut ParserUtils) -> (r: UnparsedType)
    requires
        new_type_run(old(parser_utils).tokens@, old(parser_utils).buffer@, old(parser_utils).file, old(parser_utils).index as int, None)
            is Some,
    ensures
        new_type_run(old(parser_utils).tokens@, old(parser_utils).buffer@, old(parser_utils).file, old(parser_utils).index as int, None)
            == Some((final(parser_utils).index as int, type_view(r))),
        final(parser_utils).same_but_index_imports(*old(parser_utils)),
        final(parser_utils).imports.imports@ == old(parser_utils).imports.imports@,
{
    let ghost tokens = parser_utils.tokens@;
    let ghost buf = parser_utils.buffer@;
    let ghost file = parser_utils.file;
    let ghost whole = new_type_run(tokens, buf, file, parser_utils.index as int, None);
    let mut types: Option<UnparsedType> = None;
    loop
        invariant
            parser_utils.same_but_index_imports(*old(parser_utils)),
            parser_utils.imports.imports@ == old(parser_utils).imports.imports@,
            tokens == parser_utils.tokens@,
            buf == parser_utils.buffer@,
            file == parser_utils.file,
            whole == new_type_run(tokens, buf, file, old(parser_utils).index as int, None),
            whole is Some,
            new_type_run(tokens, buf, file, parser_utils.index as int, opt_type_view(types)) == whole,
        decreases tokens.len() - parser_utils.index,
    {
        let index = parser_utils.index;
        let count = parser_utils.tokens.len();
        proof {
            assert(index < count);
        }
        let token = parser_utils.tokens[index];
        parser_utils.index = index + 1;
        match token.token_type {
            TokenTypes::Variable => {
                types = Some(UnparsedType::Basic(Span::new(parser_utils.file, index), token.to_string(parser_utils.buffer)));
            },
            TokenTypes::Operator => {
                let base = types.unwrap();
                proof {
                    match generics_of(tokens, buf, file, index + 1, type_view(base)) {
                        Some(_) => {
                            lemma_generics_advance(tokens, buf, file, index + 1, Seq::empty(), None);
                        },
                        None => {},
                    }
                }
                let generic = parse_generics(base, parser_utils);
                types = Some(generic);
            },
            TokenTypes::BlockStart => {
                proof {
                    assert(new_type_run(tokens, buf, file, index as int, opt_type_view(types)) == Some(
                        ((index + 1) as int, opt_type_view(types)->0),
                    ));
                }
                let found = types.unwrap();
                proof {
                    assert(opt_type_view(types) == Some(type_view(found)));
                }
                return found;
            },
            _ => {},
        }
    }
}

/// The fields of a `new` expression being read: those read so far, and the name of the
/// field being read (empty before one).
pub struct NewArgsParse {
    /// The fields read so far, each a name and a value
    pub values: Vec<(String, Effects)>,
    /// The name of the field being read
    pub name: String,
}

/// What reading the fields of a `new` expression does with a token.
pub enum NewArgsOutcome {
    /// Go on with the next token
    Continue(NewArgsParse),
    /// Read the value of the field as a line in the `new` state, then give it to
    /// `new_args_value`
    ReadValue(NewArgsParse),
    /// The fields are read
    Done(Vec<(String, Effects)>),
}

/// The fields of a `new` expression as values.
pub open spec fn field_views(values: Seq<(String, Effects)>) -> Seq<(Seq<char>, EffectView)> {
    Seq::new(values.len(), |k: int| (values[k].0@, effect_view(values[k].1)))
}

/// Whether a token can stand among the fields of a `new` expression.
pub open spec fn new_args_token_ok(t: TokenTypes) -> bool {
    t == TokenTypes::Variable || t == TokenTypes::Colon || t == TokenTypes::ArgumentEnd || t == TokenTypes::BlockEnd
        || t == TokenTypes::ParenClose || t == TokenTypes::InvalidCharacters || t == TokenTypes::Comment
}

/// The index past the argument end that may follow a field.
pub open spec fn after_field(tokens: Seq<Token>, index: int) -> int {
    if tokens[index].token_type == TokenTypes::ArgumentEnd {
        index + 1
    } else {
        index
    }
}

/// Takes the next token among the fields of a `new` expression: a name becomes the field's
/// name; a colon asks for the field's value; an argument end adds a field whose value
/// loads the variable of the field's name (and passes a second argument end); the end of
/// the block or a closing parenthesis ends the fields; invalid characters and comments are
/// skipped.
pub fn new_args_token(parser_utils: &mut ParserUtils, parse: NewArgsParse) -> (r: NewArgsOutcome)
    requires
        old(parser_utils).index < old(parser_utils).tokens@.len(),
        ({
            let t = old(parser_utils).tokens@[old(parser_utils).index as int];
            &&& new_args_token_ok(t.token_type)
            &&& t.token_type == TokenTypes::Variable ==> text_range(old(parser_utils).buffer@, t) is Some
            &&& t.token_type == TokenTypes::ArgumentEnd ==> old(parser_utils).index + 1 < old(parser_utils).tokens@.len()
        }),
    ensures
        ({
            let tokens = old(parser_utils).tokens@;
            let i = old(parser_utils).index as int;
            let t = tokens[i];
            let values = field_views(parse.values@);
            if t.token_type == TokenTypes::Variable {
                &&& final(parser_utils).index == i + 1
                &&& r matches NewArgsOutcome::Continue(p) && field_views(p.values@) == values && p.name@ == token_text(
                    old(parser_utils).buffer@,
                    t,
                )
            } else if t.token_type == TokenTypes::Colon {
                &&& final(parser_utils).index == i + 1
                &&& r matches NewArgsOutcome::ReadValue(p) && field_views(p.values@) == values && p.name@ == parse.name@
            } else if t.token_type == TokenTypes::ArgumentEnd {
                &&& final(parser_utils).index == after_field(tokens, i + 1)
                &&& r matches NewArgsOutcome::Continue(p) && p.name@ == Seq::<char>::empty() && field_views(p.values@)
                    == values.push(
                    (
                        parse.name@,
                        EffectView {
                            kind: KindView::LoadVariable(parse.name@),
                            span: Span { file: old(parser_utils).file, start: i as usize, end: i as usize },
                        },
                    ),
                )
            } else if t.token_type == TokenTypes::BlockEnd || t.token_type == TokenTypes::ParenClose {
                &&& final(parser_utils).index == i + 1
                &&& r matches NewArgsOutcome::Done(list) && field_views(list@) == values
            } else {
                &&& final(parser_utils).index == i + 1
                &&& r matches NewArgsOutcome::Continue(p) && field_views(p.values@) == values && p.name@ == parse.name@
            }
        }),
        final(parser_utils).tokens == old(parser_utils).tokens,
        final(parser_utils).buffer == old(parser_utils).buffer,
        final(parser_utils).file == old(parser_utils).file,
        final(parser_utils).file_name == old(parser_utils).file_name,
        final(parser_utils).imports == old(parser_utils).imports,
{
    let index = parser_utils.index;
    let count = parser_utils.tokens.len();
    proof {
        assert(index < count);
    }
    let token = parser_utils.tokens[index];
    parser_utils.index = index + 1;
    let mut parse = parse;
    match token.token_type {
        TokenTypes::Variable => {
            parse.name = token.to_string(parser_utils.buffer);
            NewArgsOutcome::Continue(parse)
        },
        TokenTypes::Colon => NewArgsOutcome::ReadValue(parse),
        TokenTypes::ArgumentEnd => {
            let effect = Effects { types: EffectType::LoadVariable(parse.name.clone()), span: Span::new(parser_utils.file, index) };
            let parse = add_field(parser_utils, parse, effect);
            NewArgsOutcome::Continue(parse)
        },
        TokenTypes::BlockEnd | TokenTypes::ParenClose => NewArgsOutcome::Done(parse.values),
        _ => NewArgsOutcome::Continue(parse),
    }
}

/// Adds a field with the name read and this value, starts a new name, and passes an
/// argument end that follows.
fn add_field(parser_utils: &mut ParserUtils, parse: NewArgsParse, effect: Effects) -> (r: NewArgsParse)
    requires
        old(parser_utils).index < old(parser_utils).tokens@.len(),
    ensures
        final(parser_utils).index == after_field(old(parser_utils).tokens@, old(parser_utils).index as int),
        r.name@ == Seq::<char>::empty(),
        field_views(r.values@) == field_views(parse.values@).push((parse.name@, effect_view(effect))),
        final(parser_utils).tokens == old(parser_utils).tokens,
        final(parser_utils).buffer == old(parser_utils).buffer,
        final(parser_utils).file == old(parser_utils).file,
        final(parser_utils).file_name == old(parser_utils).file_name,
        final(parser_utils).imports == old(parser_utils).imports,
{
    let mut parse = parse;
    let ghost before = parse.values@;
    let ghost name = parse.name@;
    let taken = parse.name;
    parse.values.push((taken, effect));
    proof {
        assert(field_views(parse.values@) =~= field_views(before).push((name, effect_view(effect))));
    }
    let index = parser_utils.index;
    let count = parser_utils.tokens.len();
    if index < count && parser_utils.tokens[index].token_type == TokenTypes::ArgumentEnd {
        parser_utils.index = index + 1;
    }
    NewArgsParse { values: parse.values, name: String::new() }
}

/// After the value of a field of a `new` expression was read: no value is an error (made
/// where the `new` expression is); else the field is added, a new name started, and an
/// argument end that follows passed.
pub fn new_args_value(parser_utils: &mut ParserUtils, parse: NewArgsParse, value: Option<Expression>) -> (r: Option<
    NewArgsParse,
>)
    requires
        value is Some ==> old(parser_utils).index < old(parser_utils).tokens@.len(),
    ensures
        match value {
            Some(v) => r matches Some(p) && final(parser_utils).index == after_field(
                old(parser_utils).tokens@,
                old(parser_utils).index as int,
            ) && p.name@ == Seq::<char>::empty() && field_views(p.values@) == field_views(parse.values@).push(
                (parse.name@, effect_view(v.effect)),
            ),
            None => r is None && final(parser_utils).index == old(parser_utils).index,
        },
        final(parser_utils).tokens == old(parser_utils).tokens,
        final(parser_utils).buffer == old(parser_utils).buffer,
        final(parser_utils).file == old(parser_utils).file,
        final(parser_utils).file_name == old(parser_utils).file_name,
        final(parser_utils).imports == old(parser_utils).imports,
{
    match value {
        Some(v) => Some(add_field(parser_utils, parse, v.effect)),
        None => None,
    }
}

/// The effect of a `new` expression: the structure of its type is created from its fields;
/// its span is the token where the type starts.
pub fn new_effect(file: u64, type_token: usize, created: UnparsedType, values: Vec<(String, Effects)>) -> (r: Effects)
    ensures
        effect_view(r) == (EffectView {
            kind: KindView::CreateStruct(type_view(created), field_views(values@)),
            span: Span { file, start: type_token, end: type_token },
        }),
{
    let r = Effects { types: EffectType::CreateStruct(created, values), span: Span::new(file, type_token) };
    proof {
        match effect_view(r).kind {
            KindView::CreateStruct(_, list) => {
                assert(list =~= field_views(values@));
            },
            _ => {},
        }
    }
    r
}

/// The explicit generic arguments a generic method call reads into an unnamed base type.
pub open spec fn explicit_generics(t: TypeView) -> Seq<TypeView> {
    match t {
        TypeView::Generic(_, bounds) => bounds,
        _ => Seq::empty(),
    }
}

/// The start of a generic method call, the index at the generic arguments after the
/// method's name two tokens back: the arguments are read (see `generics_of`); where `::`
/// and a name follow them, the called method is that name on the type the first name
/// stands for, and the index passes all four tokens; else the index passes the one token
/// after the arguments. The method's name, its explicit generic arguments and the name's
/// token index are given.
pub open spec fn generic_method_head(tokens: Seq<Token>, buf: Seq<u8>, file: u64, index: int) -> Option<
    (int, Seq<char>, Seq<TypeView>),
> {
    match generics_of(tokens, buf, file, index, TypeView::Basic(Span { file: 0, start: 0, end: 0 }, Seq::empty())) {
        None => None,
        Some((j, t)) => {
            let name = token_text(buf, tokens[index - 2]);
            if tokens[j].token_type == TokenTypes::Colon && tokens[j + 1].token_type == TokenTypes::Colon
                && tokens[j + 2].token_type == TokenTypes::Variable {
                Some((j + 4, name + seq![':', ':'] + token_text(buf, tokens[j + 2]), explicit_generics(t)))
            } else {
                Some((j + 1, name, explicit_generics(t)))
            }
        },
    }
}

/// Where `generic_method_head` reads only tokens that exist, and texts where it needs them.
pub open spec fn generic_method_safe(tokens: Seq<Token>, buf: Seq<u8>, file: u64, index: int) -> bool {
    &&& 2 <= index <= tokens.len()
    &&& text_range(buf, tokens[index - 2]) is Some
    &&& match generics_of(tokens, buf, file, index, TypeView::Basic(Span { file: 0, start: 0, end: 0 }, Seq::empty())) {
        None => false,
        Some((j, _)) => {
            &&& j < tokens.len()
            &&& tokens[j].token_type == TokenTypes::Colon ==> j + 1 < tokens.len()
            &&& (tokens[j].token_type == TokenTypes::Colon && tokens[j + 1].token_type == TokenTypes::Colon) ==> j + 2
                < tokens.len()
            &&& (tokens[j].token_type == TokenTypes::Colon && tokens[j + 1].token_type == TokenTypes::Colon
                && tokens[j + 2].token_type == TokenTypes::Variable) ==> text_range(buf, tokens[j + 2]) is Some
                && j + 4 <= usize::MAX
        },
    }
}

/// Reads the start of a generic method call (see `generic_method_head`): the method's
/// name and explicit generic arguments, and the token index of the name, which the call's
/// span starts at.
pub fn generic_method_start(parser_utils: &mut ParserUtils) -> (r: (String, Vec<UnparsedType>, usize))
    requires
        generic_method_safe(old(parser_utils).tokens@, old(parser_utils).buffer@, old(parser_utils).file, old(parser_utils).index as int),
    ensures
        ({
            let (index, name, generics) = generic_method_head(
                old(parser_utils).tokens@,
                old(parser_utils).buffer@,
                old(parser_utils).file,
                old(parser_utils).index as int,
            )->0;
            &&& final(parser_utils).index == index
            &&& r.0@ == name
            &&& type_views(r.1@) == generics
            &&& r.2 == old(parser_utils).index - 2
        }),
        final(parser_utils).same_but_index_imports(*old(parser_utils)),
        final(parser_utils).imports.imports@ == old(parser_utils).imports.imports@,
{
    let start = parser_utils.index;
    let token = start - 2;
    let mut name = parser_utils.tokens[token].to_string(parser_utils.buffer);
    let base = UnparsedType::Basic(Span { file: 0, start: 0, end: 0 }, String::new());
    proof {
        assert(type_view(base) == TypeView::Basic(Span { file: 0, start: 0, end: 0 }, Seq::<char>::empty()));
    }
    let read = parse_generics(base, parser_utils);
    let generics = match read {
        UnparsedType::Generic(_, bounds) => bounds,
        _ => Vec::new(),
    };
    proof {
        assert(type_views(generics@) =~= explicit_generics(type_view(read)));
    }
    let j = parser_utils.index;
    let count = parser_utils.tokens.len();
    proof {
        assert(j < count);
    }
    if parser_utils.tokens[j].token_type == TokenTypes::Colon && parser_utils.tokens[j + 1].token_type == TokenTypes::Colon
        && parser_utils.tokens[j + 2].token_type == TokenTypes::Variable {
        let calling = parser_utils.tokens[j + 2].to_string(parser_utils.buffer);
        let ghost first = name@;
        name.append("::");
        name.append(calling.as_str());
        proof {
            reveal_strlit("::");
            assert(name@ =~= first + seq![':', ':'] + calling@);
        }
        parser_utils.index = j + 4;
    } else {
        parser_utils.index = j + 1;
    }
    (name, generics, token)
}

} // verus!

verus! {

/// The hexadecimal digits, lowercase, in the order of their values.
pub open spec fn lower_hex_digits() -> Seq<char> {
    seq!['0', '1', '2', '3', '4', '5', '6', '7', '8', '9', 'a', 'b', 'c', 'd', 'e', 'f']
}

/// The hexadecimal digits, uppercase, in the order of their values.
pub open spec fn upper_hex_digits() -> Seq<char> {
    seq!['0', '1', '2', '3', '4', '5', '6', '7', '8', '9', 'A', 'B', 'C', 'D', 'E', 'F']
}

proof fn lemma_digit_values(n: int)
    requires
        0 <= n < 16,
    ensures
        hex_value(lower_hex_digits()[n]) == Some(n),
        hex_value(upper_hex_digits()[n]) == Some(n),
{
    let l = lower_hex_digits();
    let u = upper_hex_digits();
    if n == 0 { assert(l[0] == '0' && u[0] == '0'); }
    else if n == 1 { assert(l[1] == '1' && u[1] == '1'); }
    else if n == 2 { assert(l[2] == '2' && u[2] == '2'); }
    else if n == 3 { assert(l[3] == '3' && u[3] == '3'); }
    else if n == 4 { assert(l[4] == '4' && u[4] == '4'); }
    else if n == 5 { assert(l[5] == '5' && u[5] == '5'); }
    else if n == 6 { assert(l[6] == '6' && u[6] == '6'); }
    else if n == 7 { assert(l[7] == '7' && u[7] == '7'); }
    else if n == 8 { assert(l[8] == '8' && u[8] == '8'); }
    else if n == 9 { assert(l[9] == '9' && u[9] == '9'); }
    else if n == 10 { assert(l[10] == 'a' && u[10] == 'A'); }
    else if n == 11 { assert(l[11] == 'b' && u[11] == 'B'); }
    else if n == 12 { assert(l[12] == 'c' && u[12] == 'C'); }
    else if n == 13 { assert(l[13] == 'd' && u[13] == 'D'); }
    else if n == 14 { assert(l[14] == 'e' && u[14] == 'E'); }
    else { assert(l[15] == 'f' && u[15] == 'F'); }
}

/// Law: a hexadecimal digit is worth its place among the digits, in either case, and no
/// other character is a digit.
pub proof fn law_hex_digits(c: char)
    ensures
        forall|n: int| 0 <= n < 16 ==> hex_value(#[trigger] lower_hex_digits()[n]) == Some(n) && hex_value(
            upper_hex_digits()[n],
        ) == Some(n),
        hex_value(c) is Some <==> (lower_hex_digits().contains(c) || upper_hex_digits().contains(c)),
{
    assert forall|n: int| 0 <= n < 16 implies hex_value(#[trigger] lower_hex_digits()[n]) == Some(n) && hex_value(
        upper_hex_digits()[n],
    ) == Some(n) by {
        lemma_digit_values(n);
    }
    if hex_value(c) is Some {
        let v = hex_value(c)->0;
        assert(0 <= v < 16);
        lemma_digit_values(v);
        if '0' <= c <= '9' || 'a' <= c <= 'f' {
            assert(lower_hex_digits()[v] == c);
        } else {
            assert(upper_hex_digits()[v] == c);
        }
    }
    if lower_hex_digits().contains(c) {
        let k = choose|k: int| 0 <= k < 16 && lower_hex_digits()[k] == c;
        lemma_digit_values(k);
    }
    if upper_hex_digits().contains(c) {
        let k = choose|k: int| 0 <= k < 16 && upper_hex_digits()[k] == c;
        lemma_digit_values(k);
    }
}

/// Law: a `\x` escape of two hexadecimal digits, in either case, stands for the character
/// whose code is the number they write in base 16, after the text before the escape.
pub proof fn law_hex_escape(prefix: Seq<char>, value: int, high_upper: bool, low_upper: bool)
    requires
        0 <= value < 256,
    ensures
        ({
            let high = if high_upper { upper_hex_digits()[value / 16] } else { lower_hex_digits()[value / 16] };
            let low = if low_upper { upper_hex_digits()[value % 16] } else { lower_hex_digits()[value % 16] };
            escape_text(prefix + seq!['\\', 'x', high, low]) == Some(prefix.push(value as char))
        }),
{
    let high = if high_upper { upper_hex_digits()[value / 16] } else { lower_hex_digits()[value / 16] };
    let low = if low_upper { upper_hex_digits()[value % 16] } else { lower_hex_digits()[value % 16] };
    lemma_digit_values(value / 16);
    lemma_digit_values(value % 16);
    let f = prefix + seq!['\\', 'x', high, low];
    let n = f.len();
    assert(f[n - 1] == low && f[n - 2] == high && f[n - 3] == 'x' && f[n - 4] == '\\');
    assert(high != '+');
    assert(ascii(high) && ascii(low));
    assert(hex_byte(high, low) == Some(16 * (value / 16) + value % 16));
    assert(16 * (value / 16) + value % 16 == value);
    assert(f.take(n - 4) =~= prefix);
}

proof fn lemma_escape_shape(prefix: Seq<char>, e: char)
    requires
        prefix.len() == 0 || prefix.last() != 'x',
    ensures
        ({
            let f = prefix + seq!['\\', e];
            let n = f.len();
            &&& n == prefix.len() + 2
            &&& f[n - 1] == e
            &&& f[n - 2] == '\\'
            &&& n >= 3 ==> f[n - 3] != 'x'
            &&& f.take(n - 2) =~= prefix
        }),
{
    let f = prefix + seq!['\\', e];
    let n = f.len();
    if n >= 3 {
        assert(f[n - 3] == prefix.last());
    }
}

/// Law: a backslash and one character, after text that does not end in `x`, stands for a
/// newline (`n`), a tab (`t`), a carriage return (`r`), a backslash, a single quote or a
/// double quote (each written after the backslash), after that text; any other character
/// after the backslash cannot be read.
pub proof fn law_simple_escapes(prefix: Seq<char>, c: char)
    requires
        prefix.len() == 0 || prefix.last() != 'x',
    ensures
        escape_text(prefix + seq!['\\', 'n']) == Some(prefix.push('\n')),
        escape_text(prefix + seq!['\\', 't']) == Some(prefix.push('\t')),
        escape_text(prefix + seq!['\\', 'r']) == Some(prefix.push('\r')),
        escape_text(prefix + seq!['\\', '\\']) == Some(prefix.push('\\')),
        escape_text(prefix + seq!['\\', '\'']) == Some(prefix.push('\'')),
        escape_text(prefix + seq!['\\', '"']) == Some(prefix.push('"')),
        c != 'n' && c != 't' && c != 'r' && c != '\\' && c != '\'' && c != '"' ==> escape_text(
            prefix + seq!['\\', c],
        ) is None,
{
    lemma_escape_shape(prefix, 'n');
    lemma_escape_shape(prefix, 't');
    lemma_escape_shape(prefix, 'r');
    lemma_escape_shape(prefix, '\\');
    lemma_escape_shape(prefix, '\'');
    lemma_escape_shape(prefix, '"');
    lemma_escape_shape(prefix, c);
    assert(hex_value('\\') is None);
}

} // verus!
