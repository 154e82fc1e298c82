//! The tokenizer outside code: top elements (imports, attributes, modifiers, fields) and
//! the headers of functions, structures, traits and implementations.
use vstd::prelude::*;
use vstd::string::StringSliceAdditionalSpecFns;

use crate::token_util::{
    attribute_value, modifier_match, parse_attribute_val, parse_modifier, parse_to_character, to_char,
};
use crate::tokenizer::{
    at, in_state, included, lemma_included, lemma_match_last, lemma_match_seq, lemma_scan_to_either,
    follows, match_seq, mk, scan_to_either, to_line_end, LexState, Tokenizer, TokenizerState,
};
use crate::tokens::{Token, TokenTypes};

verus! {

/// The state after matching `text` at `s`, if it comes next.
pub open spec fn lit(buf: Seq<u8>, s: LexState, text: &str) -> Option<LexState> {
    match_seq(buf, s, text.spec_bytes())
}

/// The rest of the line as an invalid token.
pub open spec fn invalid(buf: Seq<u8>, s: LexState) -> Option<(LexState, Token)> {
    to_line_end(buf, s, TokenTypes::InvalidCharacters)
}

/// The token `token_type` at `s` in the state `state`.
pub open spec fn tok_in(s: LexState, state: u64, token_type: TokenTypes) -> Option<(LexState, Token)> {
    let t = in_state(s, state);
    Some((t, mk(t, token_type)))
}

/// The token `token_type` at `s`.
pub open spec fn tok(s: LexState, token_type: TokenTypes) -> Option<(LexState, Token)> {
    Some((s, mk(s, token_type)))
}

/// What follows the attributes and modifiers so far: another modifier,
/// or the start of a function, structure, trait or implementation (the last three not
/// inside a structure), a field name inside a structure, a blank at the top of a file.
#[verifier::opaque]
pub open spec fn top_element_step(buf: Seq<u8>, s: LexState) -> Option<(LexState, Token)> {
    let in_struct = s.state == TokenizerState::TOP_ELEMENT_TO_STRUCT;
    match modifier_match(buf, s, 0) {
        Some(q) => tok(q, TokenTypes::Modifier),
        None => match lit(buf, s, "fn") {
            Some(q) => tok_in(
                q,
                if in_struct {
                    TokenizerState::FUNCTION_TO_STRUCT_TOP
                } else {
                    TokenizerState::FUNCTION
                },
                TokenTypes::FunctionStart,
            ),
            None => match lit(buf, s, "struct") {
                Some(q) => if in_struct {
                    invalid(buf, q)
                } else {
                    tok_in(q, TokenizerState::STRUCTURE, TokenTypes::StructStart)
                },
                None => match lit(buf, s, "trait") {
                    Some(q) => if in_struct {
                        invalid(buf, q)
                    } else {
                        tok_in(q, TokenizerState::STRUCTURE, TokenTypes::TraitStart)
                    },
                    None => match lit(buf, s, "impl") {
                        Some(q) => {
                            // What is implemented comes next: whitespace up to it is skipped.
                            let q2 = included(buf, q).0;
                            let q3 = at(q2, q2.index - 1);
                            let q4 = if buf[q3.index] == 32 {
                                at(q3, q3.index + 1)
                            } else {
                                q3
                            };
                            if in_struct {
                                invalid(buf, q4)
                            } else if q4.line_index > q4.index {
                                None
                            } else {
                                tok_in(q4, TokenizerState::IMPLEMENTATION, TokenTypes::ImplStart)
                            }
                        },
                        None => if in_struct {
                            Some(to_char(buf, s, TokenTypes::FieldName, seq![58u8, 61u8]))
                        } else if s.state == TokenizerState::TOP_ELEMENT {
                            tok(at(s, s.index + 1), TokenTypes::BlankLine)
                        } else {
                            invalid(buf, s)
                        },
                    },
                },
            },
        },
    }
}

/// What `next_top_token` does at the top of a file or inside a structure. `None` past the
/// end of the buffer.
#[verifier::opaque]
pub open spec fn top_step(buf: Seq<u8>, s: LexState) -> Option<(LexState, Token)> {
    if s.index == buf.len() {
        tok(s, TokenTypes::EOF)
    } else if s.index > buf.len() {
        None
    } else {
        match s.last.token_type {
            TokenTypes::ImportStart => Some(to_char(buf, s, TokenTypes::Identifier, seq![59u8])),
            TokenTypes::Attribute => match lit(buf, s, "]") {
                Some(q) => tok(q, TokenTypes::AttributeEnd),
                None => invalid(buf, s),
            },
            TokenTypes::AttributesStart | TokenTypes::AttributeEnd => match lit(buf, s, "#[") {
                Some(q) => tok(q, TokenTypes::AttributeStart),
                None => tok(s, TokenTypes::ModifiersStart),
            },
            TokenTypes::AttributeStart => Some(attribute_value(buf, s, TokenTypes::Attribute)),
            TokenTypes::ModifiersStart | TokenTypes::Modifier => top_element_step(buf, s),
            TokenTypes::FieldName => match lit(buf, s, ":") {
                Some(q) => tok(q, TokenTypes::FieldSeparator),
                None => invalid(buf, s),
            },
            TokenTypes::FieldSeparator => Some(to_char(buf, s, TokenTypes::FieldType, seq![61u8, 59u8])),
            TokenTypes::FieldType => match lit(buf, s, "=") {
                Some(q) => tok_in(
                    q,
                    if q.state == TokenizerState::TOP_ELEMENT_TO_STRUCT {
                        TokenizerState::CODE_TO_STRUCT_TOP
                    } else {
                        TokenizerState::CODE
                    },
                    TokenTypes::FieldValue,
                ),
                None => match lit(buf, s, ";") {
                    Some(q) => tok(q, TokenTypes::FieldEnd),
                    None => invalid(buf, s),
                },
            },
            TokenTypes::Identifier => match lit(buf, s, ";") {
                Some(q) => tok(q, TokenTypes::ImportEnd),
                None => invalid(buf, s),
            },
            _ => match lit(buf, s, "import") {
                Some(q) => tok(q, TokenTypes::ImportStart),
                None => match lit(buf, s, "}") {
                    Some(q) => if q.state == TokenizerState::TOP_ELEMENT_TO_STRUCT {
                        tok_in(q, TokenizerState::TOP_ELEMENT, TokenTypes::StructEnd)
                    } else {
                        tok(q, TokenTypes::AttributesStart)
                    },
                    None => tok(s, TokenTypes::AttributesStart),
                },
            },
        }
    }
}

/// What `get_return_token` does after a function's arguments or return type: the return
/// arrow (only right after the arguments), the start of the body, or the `;` of a function
/// without one. `None` past the end of the buffer.
#[verifier::opaque]
pub open spec fn return_step(buf: Seq<u8>, s: LexState) -> Option<(LexState, Token)> {
    if s.index > buf.len() {
        None
    } else {
        match (if s.last.token_type == TokenTypes::ArgumentsEnd {
            lit(buf, s, "->")
        } else {
            None
        }) {
            Some(q) => tok(q, TokenTypes::ReturnTypeArrow),
            None => match lit(buf, s, "{") {
                Some(q) => tok_in(
                    q,
                    if q.state == TokenizerState::FUNCTION_TO_STRUCT_TOP {
                        TokenizerState::CODE_TO_STRUCT_TOP
                    } else {
                        TokenizerState::CODE
                    },
                    TokenTypes::CodeStart,
                ),
                None => match lit(buf, s, ";") {
                    Some(q) => tok_in(
                        q,
                        if q.state == TokenizerState::FUNCTION {
                            TokenizerState::TOP_ELEMENT
                        } else if q.state == TokenizerState::FUNCTION_TO_STRUCT_TOP {
                            TokenizerState::TOP_ELEMENT_TO_STRUCT
                        } else {
                            q.state
                        },
                        TokenTypes::CodeEnd,
                    ),
                    None => invalid(buf, s),
                },
            },
        }
    }
}

/// What `next_func_token` does in a function header: its name, its generics, its
/// arguments (name, `:`, type, `,`), its return type and what ends the header. `None`
/// after any other token, or where a read is past the end of the buffer.
#[verifier::opaque]
pub open spec fn func_step(buf: Seq<u8>, s: LexState) -> Option<(LexState, Token)> {
    let in_range = s.index <= buf.len();
    match s.last.token_type {
        TokenTypes::FunctionStart => if in_range {
            Some(to_char(buf, s, TokenTypes::Identifier, seq![60u8, 40u8]))
        } else {
            None
        },
        TokenTypes::Identifier => if !in_range {
            None
        } else {
            match lit(buf, s, "<") {
                Some(q) => tok_in(
                    q,
                    if q.state == TokenizerState::FUNCTION {
                        TokenizerState::GENERIC_TO_FUNC
                    } else {
                        TokenizerState::GENERIC_TO_FUNC_TO_STRUCT_TOP
                    },
                    TokenTypes::GenericsStart,
                ),
                None => match lit(buf, s, "(") {
                    Some(q) => tok(q, TokenTypes::ArgumentsStart),
                    None => invalid(buf, in_state(s, TokenizerState::TOP_ELEMENT)),
                },
            }
        },
        TokenTypes::GenericsEnd => if !in_range {
            None
        } else {
            match lit(buf, s, "(") {
                Some(q) => tok(q, TokenTypes::ArgumentsStart),
                None => invalid(buf, s),
            }
        },
        TokenTypes::ArgumentsStart | TokenTypes::ArgumentEnd => if !in_range {
            None
        } else {
            match lit(buf, s, ")") {
                Some(q) => tok(q, TokenTypes::ArgumentsEnd),
                None => Some(to_char(buf, s, TokenTypes::ArgumentName, seq![58u8, 44u8, 41u8])),
            }
        },
        TokenTypes::ArgumentName => if !in_range {
            None
        } else {
            match lit(buf, s, ":") {
                Some(q) => tok(q, TokenTypes::ArgumentTypeSeparator),
                None => match lit(buf, s, ",") {
                    Some(q) => tok(q, TokenTypes::ArgumentSeparator),
                    None => tok(s, TokenTypes::ArgumentEnd),
                },
            }
        },
        TokenTypes::ArgumentTypeSeparator => if in_range {
            Some(to_char(buf, s, TokenTypes::ArgumentType, seq![44u8, 41u8]))
        } else {
            None
        },
        TokenTypes::ArgumentType => if !in_range {
            None
        } else {
            match lit(buf, s, ",") {
                Some(q) => tok(q, TokenTypes::ArgumentSeparator),
                None => tok(s, TokenTypes::ArgumentEnd),
            }
        },
        TokenTypes::ArgumentSeparator => tok(s, TokenTypes::ArgumentEnd),
        TokenTypes::ReturnTypeArrow => if in_range {
            Some(to_char(buf, s, TokenTypes::ReturnType, seq![59u8, 123u8]))
        } else {
            None
        },
        TokenTypes::ArgumentsEnd | TokenTypes::ReturnType => return_step(buf, s),
        _ => None,
    }
}

/// What `next_struct_token` does in the header of a structure or trait: its name, its
/// generics and the `{` that opens its body. `None` after any other token or past the end.
#[verifier::opaque]
pub open spec fn struct_step(buf: Seq<u8>, s: LexState) -> Option<(LexState, Token)> {
    if s.index > buf.len() {
        None
    } else {
        match s.last.token_type {
            TokenTypes::StructStart | TokenTypes::TraitStart | TokenTypes::For => Some(
                to_char(buf, s, TokenTypes::Identifier, seq![123u8, 60u8]),
            ),
            TokenTypes::Identifier | TokenTypes::GenericsEnd => match lit(buf, s, "<") {
                Some(q) => tok_in(q, TokenizerState::GENERIC_TO_STRUCT, TokenTypes::GenericsStart),
                None => match lit(buf, s, "{") {
                    Some(q) => tok_in(q, TokenizerState::TOP_ELEMENT_TO_STRUCT, TokenTypes::StructTopElement),
                    None => invalid(buf, s),
                },
            },
            _ => None,
        }
    }
}

/// An identifier up to the next `<` or space (the end of the buffer read as such).
pub open spec fn identifier_to_space(buf: Seq<u8>, s: LexState) -> Option<(LexState, Token)> {
    let t = at(s, scan_to_either(buf, s.index, 60, 32));
    tok(t, TokenTypes::Identifier)
}

/// What `next_implementation_token` does in the header of an implementation, up to the
/// `for` keyword: its generics and the name of what is implemented. `None` after any other
/// token or past the end.
#[verifier::opaque]
pub open spec fn impl_step(buf: Seq<u8>, s: LexState) -> Option<(LexState, Token)> {
    if s.index > buf.len() {
        None
    } else {
        match s.last.token_type {
            TokenTypes::ImplStart => match lit(buf, s, "<") {
                Some(q) => tok_in(q, TokenizerState::GENERIC_TO_IMPL, TokenTypes::GenericsStart),
                None => identifier_to_space(buf, s),
            },
            TokenTypes::GenericsEnd => match lit(buf, s, "for") {
                Some(q) => tok_in(q, TokenizerState::STRUCTURE, TokenTypes::For),
                None => {
                    let (q, r) = included(buf, s);
                    match r {
                        Err(token) => Some((q, token)),
                        Ok(_) => identifier_to_space(buf, q),
                    }
                },
            },
            TokenTypes::Identifier => match lit(buf, s, "<") {
                Some(q) => tok_in(q, TokenizerState::GENERIC_TO_IMPL, TokenTypes::GenericsStart),
                None => match lit(buf, s, "for") {
                    Some(q) => tok_in(q, TokenizerState::STRUCTURE, TokenTypes::For),
                    None => invalid(buf, in_state(s, TokenizerState::TOP_ELEMENT)),
                },
            },
            _ => None,
        }
    }
}

/// Reads what comes after the attributes and modifiers so far (see `top_element_step`),
/// or gives `None` where the step cannot be taken.
fn get_top_element(tokenizer: &mut Tokenizer) -> (r: Option<Token>)
    requires
        old(tokenizer).wf(),
        old(tokenizer).index < old(tokenizer).len,
    ensures
        final(tokenizer).same_source(*old(tokenizer)),
        match top_element_step(old(tokenizer).buffer@, old(tokenizer)@) {
            Some((s, t)) => r == Some(t) && final(tokenizer)@ == s && final(tokenizer).wf(),
            None => r is None,
        },
        r matches Some(t) ==> follows(t, old(tokenizer).last) && final(tokenizer).last == old(tokenizer).last,
{
    reveal(top_element_step);
    let ghost buf = tokenizer.buffer@;
    let ghost s = tokenizer@;
    proof {
        lemma_match_seq(buf, s, "fn".spec_bytes());
        lemma_match_seq(buf, s, "struct".spec_bytes());
        lemma_match_seq(buf, s, "trait".spec_bytes());
        lemma_match_seq(buf, s, "impl".spec_bytes());
        reveal_strlit("impl");
        vstd::string::is_ascii_spec_bytes("impl");
        lemma_match_last(buf, s, "impl".spec_bytes());
        reveal_strlit("");
        vstd::string::is_ascii_spec_bytes("");
        assert("".spec_bytes() =~= Seq::<u8>::empty());
    }
    let in_struct = tokenizer.state == TokenizerState::TOP_ELEMENT_TO_STRUCT;
    if let Some(modifier) = parse_modifier(tokenizer) {
        Some(modifier)
    } else if tokenizer.matches("fn") {
        // Find the correct function state
        if in_struct {
            tokenizer.state = TokenizerState::FUNCTION_TO_STRUCT_TOP;
        } else {
            tokenizer.state = TokenizerState::FUNCTION;
        }
        Some(tokenizer.make_token(TokenTypes::FunctionStart))
    } else if tokenizer.matches("struct") {
        // Structs can't be inside structures
        if in_struct {
            Some(tokenizer.handle_invalid())
        } else {
            tokenizer.state = TokenizerState::STRUCTURE;
            Some(tokenizer.make_token(TokenTypes::StructStart))
        }
    } else if tokenizer.matches("trait") {
        // Traits can't be inside structures
        if in_struct {
            Some(tokenizer.handle_invalid())
        } else {
            tokenizer.state = TokenizerState::STRUCTURE;
            Some(tokenizer.make_token(TokenTypes::TraitStart))
        }
    } else if tokenizer.matches("impl") {
        // What is being implemented is next, so whitespace is skipped.
        proof {
            lemma_included(buf, tokenizer@);
        }
        let _ = tokenizer.next_included();
        tokenizer.index -= 1;
        let line_start = tokenizer.line_index as usize;
        if tokenizer.index < line_start {
            // Only where the buffer ends in a newline right after the keyword.
            if in_struct {
                tokenizer.index += 1;
                return Some(
                    Token::new(
                        TokenTypes::InvalidCharacters,
                        tokenizer.code_data,
                        tokenizer.last.end,
                        tokenizer.last.end_offset,
                        (tokenizer.line, 0),
                        tokenizer.index,
                    ),
                );
            }
            return None;
        }
        if tokenizer.buffer[tokenizer.index] == 32 {
            tokenizer.index += 1;
        }
        // Impls can't be inside structures
        if in_struct {
            Some(tokenizer.handle_invalid())
        } else {
            tokenizer.state = TokenizerState::IMPLEMENTATION;
            Some(tokenizer.make_token(TokenTypes::ImplStart))
        }
    } else if in_struct {
        // Looking for a field name inside a struct
        let end = [58u8, 61u8];
        Some(parse_to_character(tokenizer, TokenTypes::FieldName, &end))
    } else if tokenizer.state == TokenizerState::TOP_ELEMENT && tokenizer.matches("") {
        // If there are blank lines after all of the modifiers at the EOF, ignore them
        tokenizer.index += 1;
        Some(tokenizer.make_token(TokenTypes::BlankLine))
    } else {
        Some(tokenizer.handle_invalid())
    }
}

/// `next_top_token`, with `None` where the step cannot be taken.
pub(crate) fn top_opt(tokenizer: &mut Tokenizer) -> (r: Option<Token>)
    requires
        old(tokenizer).wf(),
    ensures
        final(tokenizer).same_source(*old(tokenizer)),
        match top_step(old(tokenizer).buffer@, old(tokenizer)@) {
            Some((s, t)) => r == Some(t) && final(tokenizer)@ == s && final(tokenizer).wf(),
            None => r is None,
        },
        r matches Some(t) ==> follows(t, old(tokenizer).last) && final(tokenizer).last == old(tokenizer).last,
{
    reveal(top_step);
    if tokenizer.index == tokenizer.len {
        return Some(tokenizer.make_token(TokenTypes::EOF));
    }
    if tokenizer.index > tokenizer.len {
        return None;
    }
    let ghost buf = tokenizer.buffer@;
    let ghost s = tokenizer@;
    proof {
        lemma_match_seq(buf, s, "]".spec_bytes());
        lemma_match_seq(buf, s, "#[".spec_bytes());
        lemma_match_seq(buf, s, ":".spec_bytes());
        lemma_match_seq(buf, s, "=".spec_bytes());
        lemma_match_seq(buf, s, ";".spec_bytes());
        lemma_match_seq(buf, s, "import".spec_bytes());
        lemma_match_seq(buf, s, "}".spec_bytes());
    }
    match tokenizer.last.token_type {
        TokenTypes::ImportStart => {
            let end = [59u8];
            assert(end@ =~= seq![59u8]);
            Some(parse_to_character(tokenizer, TokenTypes::Identifier, &end))
        },
        // Each attribute is in the format #[name(value)] or #[name], this confirms the ] at the end.
        TokenTypes::Attribute => {
            if tokenizer.matches("]") {
                Some(tokenizer.make_token(TokenTypes::AttributeEnd))
            } else {
                Some(tokenizer.handle_invalid())
            }
        },
        TokenTypes::AttributesStart | TokenTypes::AttributeEnd => {
            if tokenizer.matches("#[") {
                Some(tokenizer.make_token(TokenTypes::AttributeStart))
            } else {
                // If there aren't attributes, move on to modifiers
                Some(tokenizer.make_token(TokenTypes::ModifiersStart))
            }
        },
        TokenTypes::AttributeStart => Some(parse_attribute_val(tokenizer, TokenTypes::Attribute)),
        // Check for chained modifiers
        TokenTypes::ModifiersStart | TokenTypes::Modifier => get_top_element(tokenizer),
        TokenTypes::FieldName => {
            if tokenizer.matches(":") {
                Some(tokenizer.make_token(TokenTypes::FieldSeparator))
            } else {
                Some(tokenizer.handle_invalid())
            }
        },
        TokenTypes::FieldSeparator => {
            let end = [61u8, 59u8];
            Some(parse_to_character(tokenizer, TokenTypes::FieldType, &end))
        },
        TokenTypes::FieldType => {
            if tokenizer.matches("=") {
                // Handles the code for the field's value
                if tokenizer.state == TokenizerState::TOP_ELEMENT_TO_STRUCT {
                    tokenizer.state = TokenizerState::CODE_TO_STRUCT_TOP;
                } else {
                    tokenizer.state = TokenizerState::CODE;
                }
                Some(tokenizer.make_token(TokenTypes::FieldValue))
            } else if tokenizer.matches(";") {
                Some(tokenizer.make_token(TokenTypes::FieldEnd))
            } else {
                Some(tokenizer.handle_invalid())
            }
        },
        TokenTypes::Identifier => {
            if tokenizer.matches(";") {
                Some(tokenizer.make_token(TokenTypes::ImportEnd))
            } else {
                Some(tokenizer.handle_invalid())
            }
        },
        _ => {
            if tokenizer.matches("import") {
                Some(tokenizer.make_token(TokenTypes::ImportStart))
            } else if tokenizer.matches("}") && tokenizer.state == TokenizerState::TOP_ELEMENT_TO_STRUCT {
                // Handles the end of the struct
                tokenizer.state = TokenizerState::TOP_ELEMENT;
                Some(tokenizer.make_token(TokenTypes::StructEnd))
            } else {
                Some(tokenizer.make_token(TokenTypes::AttributesStart))
            }
        },
    }
}

/// Handles when the tokenizer isn't in any other state (see `top_step`).
pub fn next_top_token(tokenizer: &mut Tokenizer) -> (t: Token)
    requires
        old(tokenizer).wf(),
        top_step(old(tokenizer).buffer@, old(tokenizer)@) is Some,
    ensures
        final(tokenizer).wf(),
        final(tokenizer).same_source(*old(tokenizer)),
        top_step(old(tokenizer).buffer@, old(tokenizer)@) == Some((final(tokenizer)@, t)),
        final(tokenizer).last == old(tokenizer).last,
        follows(t, old(tokenizer).last),
{
    top_opt(tokenizer).unwrap()
}

/// `get_return_token`, which never fails once the index is in the buffer.
fn return_token(tokenizer: &mut Tokenizer) -> (t: Token)
    requires
        old(tokenizer).wf(),
        old(tokenizer).index <= old(tokenizer).len,
    ensures
        final(tokenizer).wf(),
        final(tokenizer).same_source(*old(tokenizer)),
        return_step(old(tokenizer).buffer@, old(tokenizer)@) == Some((final(tokenizer)@, t)),
        final(tokenizer).last == old(tokenizer).last,
        follows(t, old(tokenizer).last),
{
    reveal(return_step);
    let ghost buf = tokenizer.buffer@;
    let ghost s = tokenizer@;
    proof {
        lemma_match_seq(buf, s, "->".spec_bytes());
        lemma_match_seq(buf, s, "{".spec_bytes());
        lemma_match_seq(buf, s, ";".spec_bytes());
    }
    if tokenizer.last.token_type == TokenTypes::ArgumentsEnd && tokenizer.matches("->") {
        tokenizer.make_token(TokenTypes::ReturnTypeArrow)
    } else if tokenizer.matches("{") {
        if tokenizer.state == TokenizerState::FUNCTION_TO_STRUCT_TOP {
            tokenizer.state = TokenizerState::CODE_TO_STRUCT_TOP;
        } else {
            tokenizer.state = TokenizerState::CODE;
        }
        tokenizer.make_token(TokenTypes::CodeStart)
    } else if tokenizer.matches(";") {
        if tokenizer.state == TokenizerState::FUNCTION {
            tokenizer.state = TokenizerState::TOP_ELEMENT;
        } else if tokenizer.state == TokenizerState::FUNCTION_TO_STRUCT_TOP {
            tokenizer.state = TokenizerState::TOP_ELEMENT_TO_STRUCT;
        }
        tokenizer.make_token(TokenTypes::CodeEnd)
    } else {
        tokenizer.handle_invalid()
    }
}

/// Gets what ends a function's arguments or return type (see `return_step`).
pub fn get_return_token(tokenizer: &mut Tokenizer) -> (t: Token)
    requires
        old(tokenizer).wf(),
        return_step(old(tokenizer).buffer@, old(tokenizer)@) is Some,
    ensures
        final(tokenizer).wf(),
        final(tokenizer).same_source(*old(tokenizer)),
        return_step(old(tokenizer).buffer@, old(tokenizer)@) == Some((final(tokenizer)@, t)),
        final(tokenizer).last == old(tokenizer).last,
        follows(t, old(tokenizer).last),
{
    proof {
        reveal(return_step);
    }
    return_token(tokenizer)
}

/// `next_func_token`, with `None` where the step cannot be taken.
pub(crate) fn func_opt(tokenizer: &mut Tokenizer) -> (r: Option<Token>)
    requires
        old(tokenizer).wf(),
    ensures
        final(tokenizer).same_source(*old(tokenizer)),
        match func_step(old(tokenizer).buffer@, old(tokenizer)@) {
            Some((s, t)) => r == Some(t) && final(tokenizer)@ == s && final(tokenizer).wf(),
            None => r is None,
        },
        r matches Some(t) ==> follows(t, old(tokenizer).last) && final(tokenizer).last == old(tokenizer).last,
{
    reveal(func_step);
    reveal(return_step);
    let ghost buf = tokenizer.buffer@;
    let ghost s = tokenizer@;
    let in_range = tokenizer.index <= tokenizer.len;
    if in_range {
        proof {
            lemma_match_seq(buf, s, "<".spec_bytes());
            lemma_match_seq(buf, s, "(".spec_bytes());
            lemma_match_seq(buf, s, ")".spec_bytes());
            lemma_match_seq(buf, s, ":".spec_bytes());
            lemma_match_seq(buf, s, ",".spec_bytes());
        }
    }
    match tokenizer.last.token_type {
        TokenTypes::FunctionStart => {
            if !in_range {
                return None;
            }
            let end = [60u8, 40u8];
            Some(parse_to_character(tokenizer, TokenTypes::Identifier, &end))
        },
        TokenTypes::Identifier => {
            if !in_range {
                return None;
            }
            if tokenizer.matches("<") {
                // Handles the generics after the function's name, if it exists
                if tokenizer.state == TokenizerState::FUNCTION {
                    tokenizer.state = TokenizerState::GENERIC_TO_FUNC;
                } else {
                    tokenizer.state = TokenizerState::GENERIC_TO_FUNC_TO_STRUCT_TOP;
                }
                Some(tokenizer.make_token(TokenTypes::GenericsStart))
            } else if tokenizer.matches("(") {
                // If no generics, it must be arguments
                Some(tokenizer.make_token(TokenTypes::ArgumentsStart))
            } else {
                tokenizer.state = TokenizerState::TOP_ELEMENT;
                Some(tokenizer.handle_invalid())
            }
        },
        TokenTypes::GenericsEnd => {
            if !in_range {
                return None;
            }
            // After generics, it's arguments
            if tokenizer.matches("(") {
                Some(tokenizer.make_token(TokenTypes::ArgumentsStart))
            } else {
                Some(tokenizer.handle_invalid())
            }
        },
        // Check if arguments are done
        TokenTypes::ArgumentsStart | TokenTypes::ArgumentEnd => {
            if !in_range {
                return None;
            }
            if tokenizer.matches(")") {
                Some(tokenizer.make_token(TokenTypes::ArgumentsEnd))
            } else {
                let end = [58u8, 44u8, 41u8];
                Some(parse_to_character(tokenizer, TokenTypes::ArgumentName, &end))
            }
        },
        TokenTypes::ArgumentName => {
            if !in_range {
                return None;
            }
            if tokenizer.matches(":") {
                Some(tokenizer.make_token(TokenTypes::ArgumentTypeSeparator))
            } else {
                //Skip the comma if there is one
                if tokenizer.matches(",") {
                    Some(tokenizer.make_token(TokenTypes::ArgumentSeparator))
                } else {
                    Some(tokenizer.make_token(TokenTypes::ArgumentEnd))
                }
            }
        },
        TokenTypes::ArgumentTypeSeparator => {
            if !in_range {
                return None;
            }
            let end = [44u8, 41u8];
            Some(parse_to_character(tokenizer, TokenTypes::ArgumentType, &end))
        },
        TokenTypes::ArgumentType => {
            if !in_range {
                return None;
            }
            if tokenizer.matches(",") {
                Some(tokenizer.make_token(TokenTypes::ArgumentSeparator))
            } else {
                Some(tokenizer.make_token(TokenTypes::ArgumentEnd))
            }
        },
        TokenTypes::ArgumentSeparator => Some(tokenizer.make_token(TokenTypes::ArgumentEnd)),
        // Parse the return type
        TokenTypes::ReturnTypeArrow => {
            if !in_range {
                return None;
            }
            let end = [59u8, 123u8];
            Some(parse_to_character(tokenizer, TokenTypes::ReturnType, &end))
        },
        TokenTypes::ArgumentsEnd | TokenTypes::ReturnType => {
            if !in_range {
                return None;
            }
            Some(return_token(tokenizer))
        },
        _ => None,
    }
}

/// Handles when the tokenizer is parsing the header of a function (see `func_step`).
pub fn next_func_token(tokenizer: &mut Tokenizer) -> (t: Token)
    requires
        old(tokenizer).wf(),
        func_step(old(tokenizer).buffer@, old(tokenizer)@) is Some,
    ensures
        final(tokenizer).wf(),
        final(tokenizer).same_source(*old(tokenizer)),
        func_step(old(tokenizer).buffer@, old(tokenizer)@) == Some((final(tokenizer)@, t)),
        final(tokenizer).last == old(tokenizer).last,
        follows(t, old(tokenizer).last),
{
    func_opt(tokenizer).unwrap()
}

/// `next_struct_token`, with `None` where the step cannot be taken.
pub(crate) fn struct_opt(tokenizer: &mut Tokenizer) -> (r: Option<Token>)
    requires
        old(tokenizer).wf(),
    ensures
        final(tokenizer).same_source(*old(tokenizer)),
        match struct_step(old(tokenizer).buffer@, old(tokenizer)@) {
            Some((s, t)) => r == Some(t) && final(tokenizer)@ == s && final(tokenizer).wf(),
            None => r is None,
        },
        r matches Some(t) ==> follows(t, old(tokenizer).last) && final(tokenizer).last == old(tokenizer).last,
{
    reveal(struct_step);
    if tokenizer.index > tokenizer.len {
        return None;
    }
    let ghost buf = tokenizer.buffer@;
    let ghost s = tokenizer@;
    proof {
        lemma_match_seq(buf, s, "<".spec_bytes());
        lemma_match_seq(buf, s, "{".spec_bytes());
    }
    match tokenizer.last.token_type {
        TokenTypes::StructStart | TokenTypes::TraitStart | TokenTypes::For => {
            let end = [123u8, 60u8];
            Some(parse_to_character(tokenizer, TokenTypes::Identifier, &end))
        },
        TokenTypes::Identifier | TokenTypes::GenericsEnd => {
            if tokenizer.matches("<") {
                tokenizer.state = TokenizerState::GENERIC_TO_STRUCT;
                Some(tokenizer.make_token(TokenTypes::GenericsStart))
            } else if tokenizer.matches("{") {
                tokenizer.state = TokenizerState::TOP_ELEMENT_TO_STRUCT;
                Some(tokenizer.make_token(TokenTypes::StructTopElement))
            } else {
                Some(tokenizer.handle_invalid())
            }
        },
        _ => None,
    }
}

/// Finds the next token in the struct header (see `struct_step`). This only handles
/// generics, implemented types, structure name, and the start of the code.
pub fn next_struct_token(tokenizer: &mut Tokenizer) -> (t: Token)
    requires
        old(tokenizer).wf(),
        struct_step(old(tokenizer).buffer@, old(tokenizer)@) is Some,
    ensures
        final(tokenizer).wf(),
        final(tokenizer).same_source(*old(tokenizer)),
        struct_step(old(tokenizer).buffer@, old(tokenizer)@) == Some((final(tokenizer)@, t)),
        final(tokenizer).last == old(tokenizer).last,
        follows(t, old(tokenizer).last),
{
    struct_opt(tokenizer).unwrap()
}

/// `next_implementation_token`, with `None` where the step cannot be taken.
pub(crate) fn impl_opt(tokenizer: &mut Tokenizer) -> (r: Option<Token>)
    requires
        old(tokenizer).wf(),
    ensures
        final(tokenizer).same_source(*old(tokenizer)),
        match impl_step(old(tokenizer).buffer@, old(tokenizer)@) {
            Some((s, t)) => r == Some(t) && final(tokenizer)@ == s && final(tokenizer).wf(),
            None => r is None,
        },
        r matches Some(t) ==> follows(t, old(tokenizer).last) && final(tokenizer).last == old(tokenizer).last,
{
    reveal(impl_step);
    if tokenizer.index > tokenizer.len {
        return None;
    }
    let ghost buf = tokenizer.buffer@;
    let ghost s = tokenizer@;
    proof {
        lemma_match_seq(buf, s, "<".spec_bytes());
        lemma_match_seq(buf, s, "for".spec_bytes());
        lemma_included(buf, s);
    }
    match tokenizer.last.token_type {
        TokenTypes::ImplStart => {
            if tokenizer.matches("<") {
                tokenizer.state = TokenizerState::GENERIC_TO_IMPL;
                Some(tokenizer.make_token(TokenTypes::GenericsStart))
            } else {
                Some(tokenizer.parse_to_first(TokenTypes::Identifier, 60, 32))
            }
        },
        TokenTypes::GenericsEnd => {
            if tokenizer.matches("for") {
                tokenizer.state = TokenizerState::STRUCTURE;
                Some(tokenizer.make_token(TokenTypes::For))
            } else {
                match tokenizer.next_included() {
                    Err(token) => {
                        return Some(token);
                    },
                    Ok(_) => {},
                }
                Some(tokenizer.parse_to_first(TokenTypes::Identifier, 60, 32))
            }
        },
        TokenTypes::Identifier => {
            if tokenizer.matches("<") {
                tokenizer.state = TokenizerState::GENERIC_TO_IMPL;
                Some(tokenizer.make_token(TokenTypes::GenericsStart))
            } else if tokenizer.matches("for") {
                tokenizer.state = TokenizerState::STRUCTURE;
                Some(tokenizer.make_token(TokenTypes::For))
            } else {
                tokenizer.state = TokenizerState::TOP_ELEMENT;
                Some(tokenizer.handle_invalid())
            }
        },
        _ => None,
    }
}

/// Gets the next token of the implementation (see `impl_step`).
/// This ends at the "for" keyword.
pub fn next_implementation_token(tokenizer: &mut Tokenizer) -> (t: Token)
    requires
        old(tokenizer).wf(),
        impl_step(old(tokenizer).buffer@, old(tokenizer)@) is Some,
    ensures
        final(tokenizer).wf(),
        final(tokenizer).same_source(*old(tokenizer)),
        impl_step(old(tokenizer).buffer@, old(tokenizer)@) == Some((final(tokenizer)@, t)),
        final(tokenizer).last == old(tokenizer).last,
        follows(t, old(tokenizer).last),
{
    impl_opt(tokenizer).unwrap()
}

} // verus!
