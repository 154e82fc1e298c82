//! Scans shared by the tokenizer states: to a set of bytes, over an attribute, over a name
//! or a number, over a string, and through a list of generics.
use vstd::prelude::*;
use vstd::string::StringSliceAdditionalSpecFns;

use crate::modifiers::{modifier_text, Modifier};
use crate::text::{char_is_alphanumeric, char_is_numeric, unicode_alphabetic, unicode_numeric};
use crate::tokenizer::{
    at, in_state, included, is_ws, consume, lemma_included, lemma_match_seq, match_seq, mk, skip_ws, to_line_end,
    follows, LexState, Tokenizer, TokenizerState,
};
use crate::tokens::{Token, TokenTypes};

verus! {

pub proof fn lemma_skip_ws_index(buf: Seq<u8>, s: LexState)
    ensures
        skip_ws(buf, s).index >= s.index,
        s.index <= buf.len() ==> skip_ws(buf, s).index <= buf.len(),
    decreases buf.len() - s.index,
{
    if 0 <= s.index < buf.len() && is_ws(buf[s.index]) {
        lemma_skip_ws_index(buf, consume(buf, s));
    }
}

/// Bytes taken by `next_included` until one in `end` (which stays the next byte), or the
/// end of the buffer (`false`).
pub open spec fn until_in(buf: Seq<u8>, s: LexState, end: Seq<u8>) -> (LexState, bool)
    decreases buf.len() - s.index,
{
    let (s2, r) = included(buf, s);
    match r {
        Err(_) => (s2, false),
        Ok(c) => if end.contains(c) {
            (s2, true)
        } else {
            proof {
                lemma_skip_ws_index(buf, s);
            }
            until_in(buf, s2, end)
        },
    }
}

/// The state after a scan that stops before a found byte, with its token; at the end of
/// the buffer, the end-of-file token of `next_included`.
pub open spec fn scan_result(q: LexState, found: bool, token_type: TokenTypes) -> (LexState, Token) {
    if found {
        let t = at(q, q.index - 1);
        (t, mk(t, token_type))
    } else {
        (q, Token { code_data: None, ..mk(q, TokenTypes::EOF) })
    }
}

/// What `parse_to_character` does.
pub open spec fn to_char(buf: Seq<u8>, s: LexState, token_type: TokenTypes, end: Seq<u8>) -> (LexState, Token) {
    let (q, found) = until_in(buf, s, end);
    scan_result(q, found, token_type)
}

/// Bytes taken by `next_included` until the `]` that closes an attribute opened `depth`
/// brackets deep, or the end of the buffer (`false`).
pub open spec fn attr_scan(buf: Seq<u8>, s: LexState, depth: int) -> (LexState, bool)
    decreases buf.len() - s.index,
{
    let (s2, r) = included(buf, s);
    match r {
        Err(_) => (s2, false),
        Ok(c) => {
            proof {
                lemma_skip_ws_index(buf, s);
            }
            if c == 93 {
                if depth - 1 == 0 {
                    (s2, true)
                } else {
                    attr_scan(buf, s2, depth - 1)
                }
            } else if c == 91 {
                attr_scan(buf, s2, depth + 1)
            } else {
                attr_scan(buf, s2, depth)
            }
        },
    }
}

/// What `parse_attribute_val` does.
pub open spec fn attribute_value(buf: Seq<u8>, s: LexState, token_type: TokenTypes) -> (LexState, Token) {
    let (q, found) = attr_scan(buf, s, 1);
    scan_result(q, found, token_type)
}

/// A byte that can stand in a name: alphanumeric (as a Unicode character), `:` or `_`.
pub open spec fn acceptable_byte(c: u8) -> bool {
    unicode_alphabetic(c as char) || unicode_numeric(c as char) || c == 58 || c == 95
}

/// The first index from `i` that is the end of the buffer or holds a byte that cannot
/// stand in a name.
pub open spec fn acceptable_end(buf: Seq<u8>, i: int) -> int
    decreases buf.len() - i,
{
    if 0 <= i < buf.len() && acceptable_byte(buf[i]) {
        acceptable_end(buf, i + 1)
    } else {
        i
    }
}

/// What `parse_acceptable` does: the name runs to the first byte that cannot stand in a
/// name, without a trailing `:`. `None` where the scan stops at the first byte of the
/// buffer (the byte before it is read out of bounds), or starts past the end.
pub open spec fn acceptable_step(buf: Seq<u8>, s: LexState, token_type: TokenTypes) -> Option<(LexState, Token)> {
    if s.index > buf.len() {
        None
    } else {
        let j = acceptable_end(buf, s.index);
        if j == buf.len() {
            Some((at(s, j), mk(at(s, j), TokenTypes::EOF)))
        } else if j == 0 {
            None
        } else {
            let t = if buf[j - 1] == 58 {
                at(s, j - 1)
            } else {
                at(s, j)
            };
            Some((t, mk(t, token_type)))
        }
    }
}

/// The token that ends a number once a byte that does not continue it is reached: after a
/// period with no digit behind it, the period is left out and the number is an integer.
pub open spec fn number_end(buf: Seq<u8>, s: LexState, float: bool) -> (LexState, Token) {
    if float {
        if buf[s.index - 1] == 46 {
            let t = at(s, s.index - 1);
            (t, mk(t, TokenTypes::Integer))
        } else {
            (s, mk(s, TokenTypes::Float))
        }
    } else {
        (s, mk(s, TokenTypes::Integer))
    }
}

/// What `parse_numbers` does from a state where a period has (`float`) or has not been
/// seen: digits (Unicode numeric characters) and at most one period make the number.
pub open spec fn numbers(buf: Seq<u8>, s: LexState, float: bool) -> (LexState, Token)
    decreases buf.len() - s.index,
{
    if s.index >= buf.len() {
        (s, mk(s, TokenTypes::EOF))
    } else {
        let c = buf[s.index];
        if c == 46 {
            if float {
                number_end(buf, s, true)
            } else {
                numbers(buf, at(s, s.index + 1), true)
            }
        } else if !unicode_numeric(c as char) {
            number_end(buf, s, float)
        } else {
            numbers(buf, at(s, s.index + 1), float)
        }
    }
}

/// The writable modifiers, longest text first, so that a modifier whose text starts
/// another's (`pub`, `pub(proj)`) is tried after it.
pub open spec fn modifiers_longest_first() -> Seq<Modifier> {
    seq![Modifier::Protected, Modifier::Internal, Modifier::Extern, Modifier::Public]
}

/// The writable modifiers, longest text first (see `modifiers_longest_first`).
fn longest_first() -> (r: [Modifier; 4])
    ensures
        r@ == modifiers_longest_first(),
{
    [Modifier::Protected, Modifier::Internal, Modifier::Extern, Modifier::Public]
}

/// The state after the first of the writable modifiers, longest text first, from the `n`th
/// on, that matches.
pub open spec fn modifier_match(buf: Seq<u8>, s: LexState, n: int) -> Option<LexState>
    decreases 4 - n,
{
    if n >= 4 || n < 0 {
        None
    } else {
        match match_seq(buf, s, modifier_text(modifiers_longest_first()[n]).spec_bytes()) {
            Some(q) => Some(q),
            None => modifier_match(buf, s, n + 1),
        }
    }
}

/// Law: the modifier that is read is the one with the longest text that comes next: it
/// matches, and no writable modifier with a longer text does; where none is read, no
/// writable modifier matches.
pub proof fn law_longest_modifier(buf: Seq<u8>, s: LexState)
    ensures
        match modifier_match(buf, s, 0) {
            Some(q) => exists|m: Modifier|
                m != Modifier::Trait && #[trigger] match_seq(buf, s, modifier_text(m).spec_bytes()) == Some(q)
                    && forall|n: Modifier|
                    n != Modifier::Trait && modifier_text(n)@.len() > modifier_text(m)@.len()
                        ==> #[trigger] match_seq(buf, s, modifier_text(n).spec_bytes()) is None,
            None => forall|m: Modifier|
                m != Modifier::Trait ==> #[trigger] match_seq(buf, s, modifier_text(m).spec_bytes()) is None,
        },
{
    reveal_strlit("pub");
    reveal_strlit("pub(proj)");
    reveal_strlit("extern");
    reveal_strlit("internal");
    let l = modifiers_longest_first();
    assert(l[0] == Modifier::Protected && l[1] == Modifier::Internal && l[2] == Modifier::Extern && l[3]
        == Modifier::Public);
    assert(modifier_match(buf, s, 4) is None);
    let m0 = match_seq(buf, s, modifier_text(Modifier::Protected).spec_bytes());
    let m1 = match_seq(buf, s, modifier_text(Modifier::Internal).spec_bytes());
    let m2 = match_seq(buf, s, modifier_text(Modifier::Extern).spec_bytes());
    let m3 = match_seq(buf, s, modifier_text(Modifier::Public).spec_bytes());
    assert(m0 is None ==> modifier_match(buf, s, 0) == modifier_match(buf, s, 1));
    assert(m1 is None ==> modifier_match(buf, s, 1) == modifier_match(buf, s, 2));
    assert(m2 is None ==> modifier_match(buf, s, 2) == modifier_match(buf, s, 3));
    assert(m3 is None ==> modifier_match(buf, s, 3) == modifier_match(buf, s, 4));
    assert(modifier_text(Modifier::Protected)@.len() == 9);
    assert(modifier_text(Modifier::Internal)@.len() == 8);
    assert(modifier_text(Modifier::Extern)@.len() == 6);
    assert(modifier_text(Modifier::Public)@.len() == 3);
    if m0 is Some {
        assert(modifier_match(buf, s, 0) == m0);
        assert(match_seq(buf, s, modifier_text(Modifier::Protected).spec_bytes()) == m0);
    } else if m1 is Some {
        assert(modifier_match(buf, s, 1) == m1);
        assert(match_seq(buf, s, modifier_text(Modifier::Internal).spec_bytes()) == m1);
    } else if m2 is Some {
        assert(modifier_match(buf, s, 2) == m2);
        assert(match_seq(buf, s, modifier_text(Modifier::Extern).spec_bytes()) == m2);
    } else if m3 is Some {
        assert(modifier_match(buf, s, 3) == m3);
        assert(match_seq(buf, s, modifier_text(Modifier::Public).spec_bytes()) == m3);
    } else {
        assert(modifier_match(buf, s, 3) is None);
    }
}

/// What `parse_string` does inside a string: the string ends at the next quote (returning
/// to code), or an escape is taken (`\x` escapes take two more bytes); at the end of the
/// buffer an end-of-file token. `None` past the end, or where a backslash is the last byte.
pub open spec fn string_step(buf: Seq<u8>, s: LexState) -> Option<(LexState, Token)>
    decreases buf.len() - s.index,
{
    if s.index == buf.len() {
        Some((s, mk(s, TokenTypes::EOF)))
    } else if s.index > buf.len() || s.index < 0 {
        None
    } else {
        let c = buf[s.index];
        let s1 = at(s, s.index + 1);
        if c == 34 {
            let t = in_state(
                s1,
                if s.state == TokenizerState::STRING_TO_CODE_STRUCT_TOP {
                    TokenizerState::CODE_TO_STRUCT_TOP
                } else {
                    TokenizerState::CODE
                },
            );
            Some((t, mk(t, TokenTypes::StringEnd)))
        } else if c == 92 {
            if s1.index >= buf.len() {
                None
            } else {
                let t = at(s, if buf[s1.index] == 120 { s1.index + 3 } else { s1.index + 1 });
                Some((t, mk(t, TokenTypes::StringEscape)))
            }
        } else {
            string_step(buf, s1)
        }
    }
}

/// The code state a string returns to when it ends: the code inside a structure for a
/// string started there, else plain code.
pub open spec fn string_exit(state: u64) -> u64 {
    if state == TokenizerState::STRING_TO_CODE_STRUCT_TOP {
        TokenizerState::CODE_TO_STRUCT_TOP
    } else {
        TokenizerState::CODE
    }
}

/// Law: inside a string, only the string's end leaves it, returning to the code state the
/// string was started from; escapes and the end of the buffer keep the tokenizer in the
/// string. No step inside a string changes the bracket or generic depth.
pub proof fn law_string_returns(buf: Seq<u8>, s: LexState)
    requires
        s.state == TokenizerState::STRING || s.state == TokenizerState::STRING_TO_CODE_STRUCT_TOP,
    ensures
        string_step(buf, s) matches Some((q, t)) ==> {
            &&& q.state == (if t.token_type == TokenTypes::StringEnd { string_exit(s.state) } else { s.state })
            &&& q.bracket_depth == s.bracket_depth
            &&& q.generic_depth == s.generic_depth
            &&& (t.token_type == TokenTypes::StringEnd || t.token_type == TokenTypes::StringEscape || t.token_type
                == TokenTypes::EOF)
        },
    decreases buf.len() - s.index,
{
    if 0 <= s.index < buf.len() {
        let c = buf[s.index];
        if c != 34 && c != 92 {
            law_string_returns(buf, at(s, s.index + 1));
        }
    }
}

/// The state a generic list returns to once it closes.
pub open spec fn generic_exit(state: u64) -> Option<u64> {
    if state == TokenizerState::GENERIC_TO_FUNC {
        Some(TokenizerState::FUNCTION)
    } else if state == TokenizerState::GENERIC_TO_FUNC_TO_STRUCT_TOP {
        Some(TokenizerState::FUNCTION_TO_STRUCT_TOP)
    } else if state == TokenizerState::GENERIC_TO_STRUCT {
        Some(TokenizerState::STRUCTURE)
    } else if state == TokenizerState::GENERIC_TO_IMPL {
        Some(TokenizerState::IMPLEMENTATION)
    } else {
        None
    }
}

/// The bytes that end a generic's name.
pub open spec fn generic_name_end() -> Seq<u8> {
    seq![58u8, 44u8, 62u8, 60u8]
}

/// The bytes that end a generic's bound.
pub open spec fn generic_bound_end() -> Seq<u8> {
    seq![44u8, 43u8, 62u8, 60u8]
}

/// What `next_generic` does inside a list of generics: after its start or a `,` comes a
/// name; after a name or a bound comes a bound (`:` or `+`), a nested list (`<`), the next
/// generic (`,`) or the end of a list (`>`), which leaves the generic state when it closes
/// the outermost list. `None` after any other token, past the end of the buffer, when the
/// depth would leave the range of a `u8`, or when the state is not a generic one.
#[verifier::opaque]
pub open spec fn generic_step(buf: Seq<u8>, s: LexState) -> Option<(LexState, Token)> {
    if s.index > buf.len() {
        None
    } else {
        match s.last.token_type {
            TokenTypes::GenericsStart | TokenTypes::GenericEnd => Some(
                to_char(buf, s, TokenTypes::Generic, generic_name_end()),
            ),
            TokenTypes::Generic | TokenTypes::GenericBound | TokenTypes::GenericBoundEnd => {
                match match_seq(buf, s, ":".spec_bytes()) {
                    Some(q) => Some(to_char(buf, q, TokenTypes::GenericBound, generic_bound_end())),
                    None => match match_seq(buf, s, "+".spec_bytes()) {
                        Some(q) => Some(to_char(buf, q, TokenTypes::GenericBound, generic_bound_end())),
                        None => match match_seq(buf, s, "<".spec_bytes()) {
                            Some(q) => if q.generic_depth == 255 {
                                None
                            } else {
                                let t = LexState { generic_depth: (q.generic_depth + 1) as u8, ..q };
                                Some((t, mk(t, TokenTypes::GenericsStart)))
                            },
                            None => match match_seq(buf, s, ",".spec_bytes()) {
                                Some(q) => Some((q, mk(q, TokenTypes::GenericEnd))),
                                None => match match_seq(buf, s, ">".spec_bytes()) {
                                    Some(q) => if q.generic_depth == 0 {
                                        None
                                    } else if q.generic_depth == 1 {
                                        match generic_exit(q.state) {
                                            None => None,
                                            Some(state) => {
                                                let t = LexState { state, generic_depth: 1, ..q };
                                                Some((t, mk(t, TokenTypes::GenericsEnd)))
                                            },
                                        }
                                    } else {
                                        let t = LexState { generic_depth: (q.generic_depth - 1) as u8, ..q };
                                        Some((t, mk(t, TokenTypes::GenericBoundEnd)))
                                    },
                                    None => to_line_end(buf, s, TokenTypes::InvalidCharacters),
                                },
                            },
                        },
                    },
                }
            },
            _ => None,
        }
    }
}

/// Whether `c` is one of `set`.
pub fn byte_in(set: &[u8], c: u8) -> (r: bool)
    ensures
        r == set@.contains(c),
{
    let mut i: usize = 0;
    while i < set.len()
        invariant
            i <= set@.len(),
            forall|j: int| 0 <= j < i ==> set@[j] != c,
        decreases set@.len() - i,
    {
        if set[i] == c {
            return true;
        }
        i += 1;
    }
    false
}

/// Parses to one of the provided end characters, which is left as the next byte; at the
/// end of the buffer, the end-of-file token.
pub fn parse_to_character(tokenizer: &mut Tokenizer, token_type: TokenTypes, end: &[u8]) -> (t: Token)
    requires
        old(tokenizer).wf(),
        old(tokenizer).index <= old(tokenizer).len,
    ensures
        final(tokenizer).wf(),
        final(tokenizer).same_source(*old(tokenizer)),
        (final(tokenizer)@, t) == to_char(old(tokenizer).buffer@, old(tokenizer)@, token_type, end@),
        final(tokenizer).last == old(tokenizer).last,
        follows(t, old(tokenizer).last),
{
    let ghost buf = tokenizer.buffer@;
    loop
        invariant
            tokenizer.wf(),
            tokenizer.same_source(*old(tokenizer)),
            buf == tokenizer.buffer@,
            tokenizer.index <= tokenizer.len,
            until_in(buf, tokenizer@, end@) == until_in(buf, old(tokenizer)@, end@),
            tokenizer@ == (LexState {
                index: tokenizer@.index,
                line: tokenizer@.line,
                line_index: tokenizer@.line_index,
                ..old(tokenizer)@
            }),
        decreases tokenizer.len - tokenizer.index,
    {
        let ghost pre = tokenizer@;
        proof {
            lemma_included(buf, pre);
        }
        match tokenizer.next_included() {
            Err(token) => {
                return token;
            },
            Ok(c) => {
                if byte_in(end, c) {
                    tokenizer.index -= 1;
                    return tokenizer.make_token(token_type);
                }
            },
        }
    }
}

/// Parses the value of an attribute, up to the `]` that closes it, which is left as the
/// next byte; at the end of the buffer, the end-of-file token.
pub fn parse_attribute_val(tokenizer: &mut Tokenizer, token_type: TokenTypes) -> (t: Token)
    requires
        old(tokenizer).wf(),
        old(tokenizer).index <= old(tokenizer).len,
    ensures
        final(tokenizer).wf(),
        final(tokenizer).same_source(*old(tokenizer)),
        (final(tokenizer)@, t) == attribute_value(old(tokenizer).buffer@, old(tokenizer)@, token_type),
        final(tokenizer).last == old(tokenizer).last,
        follows(t, old(tokenizer).last),
{
    let ghost buf = tokenizer.buffer@;
    let mut depth: i64 = 1;
    loop
        invariant
            tokenizer.wf(),
            tokenizer.same_source(*old(tokenizer)),
            buf == tokenizer.buffer@,
            tokenizer.index <= tokenizer.len,
            old(tokenizer).index <= tokenizer.index,
            1 <= depth <= 1 + tokenizer.index - old(tokenizer).index,
            attr_scan(buf, tokenizer@, depth as int) == attr_scan(buf, old(tokenizer)@, 1),
            tokenizer@ == (LexState {
                index: tokenizer@.index,
                line: tokenizer@.line,
                line_index: tokenizer@.line_index,
                ..old(tokenizer)@
            }),
        decreases tokenizer.len - tokenizer.index,
    {
        let ghost pre = tokenizer@;
        proof {
            lemma_included(buf, pre);
        }
        let last = match tokenizer.next_included() {
            Err(token) => {
                return token;
            },
            Ok(c) => c,
        };
        if last == 93 {
            depth -= 1;
            if depth == 0 {
                tokenizer.index -= 1;
                return tokenizer.make_token(token_type);
            }
        } else if last == 91 {
            depth += 1;
        }
    }
}

/// `parse_acceptable`, with `None` where it would read before the buffer.
pub(crate) fn acceptable_opt(tokenizer: &mut Tokenizer, token_type: TokenTypes) -> (r: Option<Token>)
    requires
        old(tokenizer).wf(),
    ensures
        final(tokenizer).same_source(*old(tokenizer)),
        match acceptable_step(old(tokenizer).buffer@, old(tokenizer)@, token_type) {
            Some((s, t)) => r == Some(t) && final(tokenizer)@ == s && final(tokenizer).wf(),
            None => r is None,
        },
        r matches Some(t) ==> follows(t, old(tokenizer).last) && final(tokenizer).last == old(tokenizer).last,
{
    let ghost buf = tokenizer.buffer@;
    if tokenizer.index > tokenizer.len {
        return None;
    }
    loop
        invariant
            tokenizer.wf(),
            tokenizer.same_source(*old(tokenizer)),
            buf == tokenizer.buffer@,
            old(tokenizer).index <= tokenizer.index <= tokenizer.len,
            acceptable_end(buf, tokenizer.index as int) == acceptable_end(buf, old(tokenizer).index as int),
            tokenizer@ == at(old(tokenizer)@, tokenizer@.index),
        decreases tokenizer.len - tokenizer.index,
    {
        if tokenizer.index == tokenizer.len {
            return Some(tokenizer.make_token(TokenTypes::EOF));
        }
        let byte = tokenizer.buffer[tokenizer.index];
        let character = byte as char;
        if !char_is_alphanumeric(character) && character != ':' && character != '_' {
            if tokenizer.index == 0 {
                return None;
            }
            if tokenizer.buffer[tokenizer.index - 1] == 58 {
                tokenizer.index -= 1;
            }
            return Some(tokenizer.make_token(token_type));
        }
        tokenizer.index += 1;
    }
}

/// Parses until a byte that cannot stand in a name (see `acceptable_step`).
pub fn parse_acceptable(tokenizer: &mut Tokenizer, token_type: TokenTypes) -> (t: Token)
    requires
        old(tokenizer).wf(),
        acceptable_step(old(tokenizer).buffer@, old(tokenizer)@, token_type) is Some,
    ensures
        final(tokenizer).wf(),
        final(tokenizer).same_source(*old(tokenizer)),
        acceptable_step(old(tokenizer).buffer@, old(tokenizer)@, token_type) == Some((final(tokenizer)@, t)),
        final(tokenizer).last == old(tokenizer).last,
        follows(t, old(tokenizer).last),
{
    acceptable_opt(tokenizer, token_type).unwrap()
}

/// Parses numbers (see `numbers`).
pub fn parse_numbers(tokenizer: &mut Tokenizer) -> (t: Token)
    requires
        old(tokenizer).wf(),
        old(tokenizer).index <= old(tokenizer).len,
    ensures
        final(tokenizer).wf(),
        final(tokenizer).same_source(*old(tokenizer)),
        numbers(old(tokenizer).buffer@, old(tokenizer)@, false) == (final(tokenizer)@, t),
        final(tokenizer).last == old(tokenizer).last,
        follows(t, old(tokenizer).last),
{
    let ghost buf = tokenizer.buffer@;
    let mut float = false;
    loop
        invariant
            tokenizer.wf(),
            tokenizer.same_source(*old(tokenizer)),
            buf == tokenizer.buffer@,
            old(tokenizer).index <= tokenizer.index <= tokenizer.len,
            float ==> old(tokenizer).index < tokenizer.index,
            numbers(buf, tokenizer@, float) == numbers(buf, old(tokenizer)@, false),
            tokenizer@ == at(old(tokenizer)@, tokenizer@.index),
        decreases tokenizer.len - tokenizer.index,
    {
        if tokenizer.index == tokenizer.len {
            return tokenizer.make_token(TokenTypes::EOF);
        }
        let byte = tokenizer.buffer[tokenizer.index];
        let character = byte as char;
        if character == '.' {
            if float {
                // If there's two periods in a row it's not a float, return the integer.
                return if tokenizer.buffer[tokenizer.index - 1] == 46 {
                    tokenizer.index -= 1;
                    tokenizer.make_token(TokenTypes::Integer)
                } else {
                    tokenizer.make_token(TokenTypes::Float)
                };
            } else {
                float = true;
            }
        } else {
            if !char_is_numeric(character) {
                return if float {
                    // If no number is after the period assume it's a method call not a float.
                    if tokenizer.buffer[tokenizer.index - 1] == 46 {
                        tokenizer.index -= 1;
                        tokenizer.make_token(TokenTypes::Integer)
                    } else {
                        tokenizer.make_token(TokenTypes::Float)
                    }
                } else {
                    tokenizer.make_token(TokenTypes::Integer)
                };
            }
        }
        tokenizer.index += 1;
    }
}

/// Parses any modifier: the writable modifier with the longest text that comes next gives a
/// modifier token (see `law_longest_modifier`); if none does, the tokenizer is left as it
/// was.
pub fn parse_modifier(tokenizer: &mut Tokenizer) -> (r: Option<Token>)
    requires
        old(tokenizer).wf(),
        old(tokenizer).index <= old(tokenizer).len,
    ensures
        final(tokenizer).wf(),
        final(tokenizer).same_source(*old(tokenizer)),
        match modifier_match(old(tokenizer).buffer@, old(tokenizer)@, 0) {
            Some(q) => final(tokenizer)@ == q && r == Some(mk(q, TokenTypes::Modifier)),
            None => *final(tokenizer) == *old(tokenizer) && r is None,
        },
        r matches Some(t) ==> follows(t, old(tokenizer).last) && final(tokenizer).last == old(tokenizer).last,
{
    let ghost buf = tokenizer.buffer@;
    let all = longest_first();
    let mut i: usize = 0;
    while i < 4
        invariant
            tokenizer.wf(),
            *tokenizer == *old(tokenizer),
            buf == tokenizer.buffer@,
            tokenizer.index <= tokenizer.len,
            all@ == modifiers_longest_first(),
            i <= 4,
            modifier_match(buf, tokenizer@, 0) == modifier_match(buf, tokenizer@, i as int),
        decreases 4 - i,
    {
        let modifier: Modifier = all[i];
        if tokenizer.matches(modifier.name()) {
            proof {
                lemma_match_seq(buf, old(tokenizer)@, modifier_text(modifier).spec_bytes());
            }
            return Some(tokenizer.make_token(TokenTypes::Modifier));
        }
        i += 1;
    }
    None
}

/// `parse_string`, with `None` where it would read past the buffer.
pub(crate) fn string_opt(tokenizer: &mut Tokenizer) -> (r: Option<Token>)
    requires
        old(tokenizer).wf(),
    ensures
        final(tokenizer).same_source(*old(tokenizer)),
        match string_step(old(tokenizer).buffer@, old(tokenizer)@) {
            Some((s, t)) => r == Some(t) && final(tokenizer)@ == s && final(tokenizer).wf(),
            None => r is None,
        },
        r matches Some(t) ==> follows(t, old(tokenizer).last) && final(tokenizer).last == old(tokenizer).last,
{
    let ghost buf = tokenizer.buffer@;
    if tokenizer.index > tokenizer.len {
        return None;
    }
    loop
        invariant
            tokenizer.wf(),
            tokenizer.same_source(*old(tokenizer)),
            buf == tokenizer.buffer@,
            old(tokenizer).index <= tokenizer.index <= tokenizer.len,
            string_step(buf, tokenizer@) == string_step(buf, old(tokenizer)@),
            tokenizer@ == at(old(tokenizer)@, tokenizer@.index),
        decreases tokenizer.len - tokenizer.index,
    {
        if tokenizer.len == tokenizer.index {
            return Some(tokenizer.make_token(TokenTypes::EOF));
        }
        // get the next character
        let next = tokenizer.buffer[tokenizer.index];
        tokenizer.index += 1;
        if next == 34 {
            return if tokenizer.buffer[tokenizer.index - 1] != 92 {
                tokenizer.state = if tokenizer.state == TokenizerState::STRING_TO_CODE_STRUCT_TOP {
                    TokenizerState::CODE_TO_STRUCT_TOP
                } else {
                    TokenizerState::CODE
                };
                Some(tokenizer.make_token(TokenTypes::StringEnd))
            } else {
                Some(tokenizer.make_token(TokenTypes::StringStart))
            };
        } else if next == 92 {
            if tokenizer.index >= tokenizer.len {
                return None;
            }
            // a hex escape (ex. \xAA) is two bytes longer than the others
            if tokenizer.buffer[tokenizer.index] == 120 {
                tokenizer.index += 2;
            }
            // include the escaped character in the escape
            tokenizer.index += 1;
            return Some(tokenizer.make_token(TokenTypes::StringEscape));
        }
    }
}

/// Parses a string (see `string_step`).
pub fn parse_string(tokenizer: &mut Tokenizer) -> (t: Token)
    requires
        old(tokenizer).wf(),
        string_step(old(tokenizer).buffer@, old(tokenizer)@) is Some,
    ensures
        final(tokenizer).wf(),
        final(tokenizer).same_source(*old(tokenizer)),
        string_step(old(tokenizer).buffer@, old(tokenizer)@) == Some((final(tokenizer)@, t)),
        final(tokenizer).last == old(tokenizer).last,
        follows(t, old(tokenizer).last),
{
    string_opt(tokenizer).unwrap()
}

/// `next_generic`, with `None` where it cannot be taken.
pub(crate) fn generic_opt(tokenizer: &mut Tokenizer) -> (r: Option<Token>)
    requires
        old(tokenizer).wf(),
    ensures
        final(tokenizer).same_source(*old(tokenizer)),
        match generic_step(old(tokenizer).buffer@, old(tokenizer)@) {
            Some((s, t)) => r == Some(t) && final(tokenizer)@ == s && final(tokenizer).wf(),
            None => r is None,
        },
        r matches Some(t) ==> follows(t, old(tokenizer).last) && final(tokenizer).last == old(tokenizer).last,
{
    reveal(generic_step);
    if tokenizer.index > tokenizer.len {
        return None;
    }
    match tokenizer.last.token_type {
        TokenTypes::GenericsStart | TokenTypes::GenericEnd => {
            let end = [58u8, 44u8, 62u8, 60u8];
            Some(parse_to_character(tokenizer, TokenTypes::Generic, &end))
        },
        TokenTypes::Generic | TokenTypes::GenericBound | TokenTypes::GenericBoundEnd => {
            let ghost buf = tokenizer.buffer@;
            proof {
                lemma_match_seq(buf, tokenizer@, ":".spec_bytes());
                lemma_match_seq(buf, tokenizer@, "+".spec_bytes());
                lemma_match_seq(buf, tokenizer@, "<".spec_bytes());
                lemma_match_seq(buf, tokenizer@, ",".spec_bytes());
                lemma_match_seq(buf, tokenizer@, ">".spec_bytes());
            }
            if tokenizer.matches(":") || tokenizer.matches("+") {
                let end = [44u8, 43u8, 62u8, 60u8];
                Some(parse_to_character(tokenizer, TokenTypes::GenericBound, &end))
            } else if tokenizer.matches("<") {
                if tokenizer.generic_depth == 255 {
                    return None;
                }
                tokenizer.generic_depth += 1;
                Some(tokenizer.make_token(TokenTypes::GenericsStart))
            } else if tokenizer.matches(",") {
                Some(tokenizer.make_token(TokenTypes::GenericEnd))
            } else if tokenizer.matches(">") {
                if tokenizer.generic_depth == 0 {
                    return None;
                }
                tokenizer.generic_depth -= 1;
                if tokenizer.generic_depth == 0 {
                    // The generics are done, break of out the generic state
                    tokenizer.state = if tokenizer.state == TokenizerState::GENERIC_TO_FUNC {
                        TokenizerState::FUNCTION
                    } else if tokenizer.state == TokenizerState::GENERIC_TO_FUNC_TO_STRUCT_TOP {
                        TokenizerState::FUNCTION_TO_STRUCT_TOP
                    } else if tokenizer.state == TokenizerState::GENERIC_TO_STRUCT {
                        TokenizerState::STRUCTURE
                    } else if tokenizer.state == TokenizerState::GENERIC_TO_IMPL {
                        TokenizerState::IMPLEMENTATION
                    } else {
                        return None;
                    };
                    // Reset the generic depth variable in the tokenizer
                    tokenizer.generic_depth = 1;
                    Some(tokenizer.make_token(TokenTypes::GenericsEnd))
                } else {
                    Some(tokenizer.make_token(TokenTypes::GenericBoundEnd))
                }
            } else {
                Some(tokenizer.handle_invalid())
            }
        },
        _ => None,
    }
}

/// Parses the next token of a list of generics (see `generic_step`). Only generics in a
/// function/impl header are tokenized this way; types are tokenized by the parser.
pub fn next_generic(tokenizer: &mut Tokenizer) -> (t: Token)
    requires
        old(tokenizer).wf(),
        generic_step(old(tokenizer).buffer@, old(tokenizer)@) is Some,
    ensures
        final(tokenizer).wf(),
        final(tokenizer).same_source(*old(tokenizer)),
        generic_step(old(tokenizer).buffer@, old(tokenizer)@) == Some((final(tokenizer)@, t)),
        final(tokenizer).last == old(tokenizer).last,
        follows(t, old(tokenizer).last),
{
    generic_opt(tokenizer).unwrap()
}

} // verus!
