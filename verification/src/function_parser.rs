//! Reading a function's header from its tokens: its name, generics, arguments and return
//! type, one token at a time.
use vstd::prelude::*;

use crate::program::Span;
use crate::struct_parser::{declared_generics, entry_views, parse_generics};
use vstd::string::StringExecFns;
use crate::tokens::{text_range, Token, TokenTypes};
use crate::top_parser::{token_text, ParserUtils};
use crate::type_parser::TypeView;

verus! {

/// What reading a function's header has found so far.
pub struct FunctionHeader {
    /// The function's full name: the file's name, `::` and the function's own
    pub name: String,
    /// Where the function's name was written
    pub span: Span,
    /// The name of the argument being read
    pub last_arg: String,
    /// The type of the argument being read, empty where none was written
    pub last_arg_type: String,
}

/// What reading one token of a function's header asks of the caller.
#[derive(Debug)]
pub enum FunctionEvent {
    /// Nothing: go on with the next token
    Continue,
    /// An argument without a type: `self`, of the enclosing type, with this name
    SelfField(String),
    /// An argument with its name and the name of its type, written where the span says
    Field(String, String, Span),
    /// The return type's name, written where the span says
    ReturnType(String, Span),
    /// The function's code follows
    Code,
    /// The header has ended, without code
    End,
    /// An argument without a type in a function outside any type; the span says where
    SelfInStatic(Span),
}

/// A function event as values.
pub enum FunctionEventView {
    Continue,
    SelfField(Seq<char>),
    Field(Seq<char>, Seq<char>, Span),
    ReturnType(Seq<char>, Span),
    Code,
    End,
    SelfInStatic(Span),
}

/// A function event as values.
pub open spec fn function_event_view(e: FunctionEvent) -> FunctionEventView {
    match e {
        FunctionEvent::Continue => FunctionEventView::Continue,
        FunctionEvent::SelfField(name) => FunctionEventView::SelfField(name@),
        FunctionEvent::Field(name, arg_type, span) => FunctionEventView::Field(name@, arg_type@, span),
        FunctionEvent::ReturnType(name, span) => FunctionEventView::ReturnType(name@, span),
        FunctionEvent::Code => FunctionEventView::Code,
        FunctionEvent::End => FunctionEventView::End,
        FunctionEvent::SelfInStatic(span) => FunctionEventView::SelfInStatic(span),
    }
}

/// The state of reading a function's header, as values: the token index, the header and
/// the generics.
pub struct FunctionState {
    pub index: int,
    pub name: Seq<char>,
    pub span: Span,
    pub last_arg: Seq<char>,
    pub last_arg_type: Seq<char>,
    pub generics: Seq<(Seq<char>, Seq<TypeView>)>,
}

/// What reading the token at `s.index` of a function's header does, in the file
/// `file_name`, `in_type` telling whether the function belongs to a type: a name names the
/// function; generics are declared (see `declared_generics`); an argument's name and type
/// are kept until the argument ends, which hands the argument back (one without a type is
/// `self`, an error outside a type) and starts the next; a return type is handed back; the
/// start of the code hands it over; the end of the code ends the header, and so does the
/// end of the file, before it; separators and comments are passed over. `None` where the
/// token cannot come there or cannot be read.
pub open spec fn function_token(
    tokens: Seq<Token>,
    buf: Seq<u8>,
    file: u64,
    file_name: Seq<char>,
    in_type: bool,
    s: FunctionState,
) -> Option<(FunctionState, FunctionEventView)> {
    let i = s.index;
    if !(0 <= i < tokens.len()) {
        None
    } else {
        let t = tokens[i];
        let here = Span { file, start: i as usize, end: i as usize };
        let next = FunctionState { index: i + 1, ..s };
        let named = t.token_type == TokenTypes::Identifier || t.token_type == TokenTypes::ArgumentName
            || t.token_type == TokenTypes::ArgumentType || t.token_type == TokenTypes::ReturnType;
        if named && text_range(buf, t) is None {
            None
        } else if t.token_type == TokenTypes::Identifier {
            Some(
                (
                    FunctionState { name: file_name + "::"@ + token_text(buf, t), span: here, ..next },
                    FunctionEventView::Continue,
                ),
            )
        } else if t.token_type == TokenTypes::GenericsStart {
            match declared_generics(tokens, buf, file, i + 1, Seq::empty(), Seq::empty(), s.generics) {
                Some((j, generics)) => Some((FunctionState { index: j, generics, ..s }, FunctionEventView::Continue)),
                None => None,
            }
        } else if t.token_type == TokenTypes::ArgumentName {
            Some((FunctionState { last_arg: token_text(buf, t), ..next }, FunctionEventView::Continue))
        } else if t.token_type == TokenTypes::ArgumentType {
            Some((FunctionState { last_arg_type: token_text(buf, t), ..next }, FunctionEventView::Continue))
        } else if t.token_type == TokenTypes::ArgumentEnd {
            if s.last_arg_type.len() == 0 {
                if in_type {
                    Some(
                        (
                            FunctionState { last_arg: Seq::empty(), ..next },
                            FunctionEventView::SelfField(s.last_arg),
                        ),
                    )
                } else {
                    Some((next, FunctionEventView::SelfInStatic(here)))
                }
            } else {
                Some(
                    (
                        FunctionState { last_arg: Seq::empty(), last_arg_type: Seq::empty(), ..next },
                        FunctionEventView::Field(s.last_arg, s.last_arg_type, here),
                    ),
                )
            }
        } else if t.token_type == TokenTypes::ReturnType {
            Some((next, FunctionEventView::ReturnType(token_text(buf, t), here)))
        } else if t.token_type == TokenTypes::CodeStart {
            Some((next, FunctionEventView::Code))
        } else if t.token_type == TokenTypes::CodeEnd {
            Some((next, FunctionEventView::End))
        } else if t.token_type == TokenTypes::EOF {
            Some((s, FunctionEventView::End))
        } else if t.token_type == TokenTypes::ArgumentsStart || t.token_type == TokenTypes::ArgumentSeparator
            || t.token_type == TokenTypes::ArgumentTypeSeparator || t.token_type == TokenTypes::ArgumentsEnd
            || t.token_type == TokenTypes::ReturnTypeArrow || t.token_type == TokenTypes::Comment {
            Some((next, FunctionEventView::Continue))
        } else {
            None
        }
    }
}

/// The state of reading a function's header, as values.
pub open spec fn function_state(parser_utils: ParserUtils, header: FunctionHeader) -> FunctionState {
    FunctionState {
        index: parser_utils.index as int,
        name: header.name@,
        span: header.span,
        last_arg: header.last_arg@,
        last_arg_type: header.last_arg_type@,
        generics: entry_views(parser_utils.imports.generics@),
    }
}

/// Reads one token of a function's header (see `function_token`).
pub fn function_step(parser_utils: &mut ParserUtils, header: &mut FunctionHeader) -> (r: FunctionEvent)
    requires
        function_token(
            old(parser_utils).tokens@,
            old(parser_utils).buffer@,
            old(parser_utils).file,
            old(parser_utils).file_name@,
            old(parser_utils).imports.parent is Some,
            function_state(*old(parser_utils), *old(header)),
        ) is Some,
    ensures
        final(parser_utils).same_but_index_generics(*old(parser_utils)),
        function_token(
            old(parser_utils).tokens@,
            old(parser_utils).buffer@,
            old(parser_utils).file,
            old(parser_utils).file_name@,
            old(parser_utils).imports.parent is Some,
            function_state(*old(parser_utils), *old(header)),
        ) == Some((function_state(*final(parser_utils), *final(header)), function_event_view(r))),
{
    proof {
        assert(parser_utils.tokens.len() == parser_utils.tokens@.len());
    }
    let token = parser_utils.tokens[parser_utils.index];
    parser_utils.index += 1;
    match token.token_type {
        TokenTypes::Identifier => {
            let mut name = parser_utils.file_name.clone();
            name.append("::");
            let own = token.to_string(parser_utils.buffer);
            name.append(own.as_str());
            proof {
                reveal_strlit("::");
            }
            header.name = name;
            header.span = Span::new(parser_utils.file, parser_utils.index - 1);
            FunctionEvent::Continue
        },
        TokenTypes::GenericsStart => {
            parse_generics(parser_utils);
            FunctionEvent::Continue
        },
        TokenTypes::ArgumentName => {
            header.last_arg = token.to_string(parser_utils.buffer);
            FunctionEvent::Continue
        },
        TokenTypes::ArgumentType => {
            header.last_arg_type = token.to_string(parser_utils.buffer);
            FunctionEvent::Continue
        },
        TokenTypes::ArgumentEnd => {
            let here = Span::new(parser_utils.file, parser_utils.index - 1);
            if header.last_arg_type.as_str().is_empty() {
                if parser_utils.imports.parent.is_none() {
                    return FunctionEvent::SelfInStatic(here);
                }
                let name = header.last_arg.clone();
                header.last_arg = String::new();
                FunctionEvent::SelfField(name)
            } else {
                let name = header.last_arg.clone();
                let arg_type = header.last_arg_type.clone();
                header.last_arg_type = String::new();
                header.last_arg = String::new();
                FunctionEvent::Field(name, arg_type, here)
            }
        },
        TokenTypes::ReturnType => {
            FunctionEvent::ReturnType(token.to_string(parser_utils.buffer), Span::new(parser_utils.file, parser_utils.index - 1))
        },
        TokenTypes::CodeStart => FunctionEvent::Code,
        TokenTypes::CodeEnd => FunctionEvent::End,
        TokenTypes::EOF => {
            parser_utils.index -= 1;
            FunctionEvent::End
        },
        _ => FunctionEvent::Continue,
    }
}

} // verus!
