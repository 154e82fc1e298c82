//! The tokenizer inside blocks of code.
use vstd::prelude::*;
use vstd::string::StringSliceAdditionalSpecFns;

use crate::text::{char_is_alphabetic, unicode_alphabetic};
use crate::token_util::{acceptable_step, lemma_skip_ws_index, numbers, parse_numbers, acceptable_opt};
use crate::tokenizer::{
    at, in_state, included, is_ws, is_ascii_alpha, is_ascii_alphabetic, is_ascii_digit, is_digit, lemma_included,
    follows, lemma_match_last, lemma_match_seq, match_seq, match_word, mk, to_line_end, LexState, Tokenizer,
    TokenizerState,
};
use crate::tokens::{Token, TokenTypes};

verus! {

/// The keywords and symbols of code, in the order they are tried: the text, whether it
/// must stand as a whole word, and the token it gives.
pub open spec fn keyword_table() -> Seq<(&'static str, bool, TokenTypes)> {
    seq![
        (";", false, TokenTypes::LineEnd),
        (",", false, TokenTypes::ArgumentEnd),
        ("(", false, TokenTypes::ParenOpen),
        (")", false, TokenTypes::ParenClose),
        ("return", true, TokenTypes::Return),
        ("break", true, TokenTypes::Break),
        ("switch", true, TokenTypes::Switch),
        ("true", true, TokenTypes::True),
        ("false", true, TokenTypes::False),
        ("for", true, TokenTypes::For),
        ("while", true, TokenTypes::While),
        ("new", true, TokenTypes::New),
        ("if", true, TokenTypes::If),
        ("do", true, TokenTypes::Do),
        ("else", true, TokenTypes::Else),
        ("in", true, TokenTypes::In),
        (":", false, TokenTypes::Colon),
        ("let", true, TokenTypes::Let),
        ("=", false, TokenTypes::Equals),
    ]
}

/// The first entry of the keyword table, from the `n`th on, that comes next: `Some(None)`
/// if none does; `None` where a word is matched at the very end of the buffer.
pub open spec fn keyword_scan(buf: Seq<u8>, s: LexState, n: int) -> Option<Option<(LexState, TokenTypes)>>
    decreases keyword_table().len() - n,
{
    if n >= keyword_table().len() || n < 0 {
        Some(None)
    } else {
        let (text, word, token_type) = keyword_table()[n];
        if word {
            match match_word(buf, s, text.spec_bytes()) {
                None => None,
                Some(Some(q)) => Some(Some((q, token_type))),
                Some(None) => keyword_scan(buf, s, n + 1),
            }
        } else {
            match match_seq(buf, s, text.spec_bytes()) {
                Some(q) => Some(Some((q, token_type))),
                None => keyword_scan(buf, s, n + 1),
            }
        }
    }
}

/// What `check_keywords` does (see `keyword_scan`).
#[verifier::opaque]
pub open spec fn keywords_step(buf: Seq<u8>, s: LexState) -> Option<Option<(LexState, Token)>> {
    match keyword_scan(buf, s, 0) {
        None => None,
        Some(None) => Some(None),
        Some(Some((q, token_type))) => Some(Some((q, mk(q, token_type)))),
    }
}

/// What the code tokenizer does when no keyword, bracket, period, quote or character
/// literal comes next: it takes the next byte, and a comment, a variable name, a number or
/// an operator follows.
#[verifier::opaque]
pub open spec fn code_fallback(buf: Seq<u8>, s: LexState) -> Option<(LexState, Token)> {
    let (s2, r) = included(buf, s);
    match r {
        Err(token) => Some((s2, token)),
        Ok(found) => match match_seq(buf, s2, "//".spec_bytes()) {
            Some(q) => to_line_end(buf, q, TokenTypes::Comment),
            None => if unicode_alphabetic(found as char) || found == 95 {
                acceptable_step(buf, s2, TokenTypes::Variable)
            } else if 48 <= found <= 57 {
                Some(numbers(buf, s2, false))
            } else {
                Some((s2, mk(s2, TokenTypes::Operator)))
            },
        },
    }
}

/// What `next_code_token` does inside a block of code. `None` where the step cannot be
/// taken: past the end of the buffer, a byte read out of bounds, a bracket depth leaving the
/// range of a `u8`.
#[verifier::opaque]
pub open spec fn code_step(buf: Seq<u8>, s: LexState) -> Option<(LexState, Token)> {
    if s.index > buf.len() {
        None
    } else {
        match keywords_step(buf, s) {
            None => None,
            Some(Some((q, t))) => Some((q, t)),
            Some(None) => if s.last.token_type == TokenTypes::Period && s.index >= buf.len() {
                None
            } else if s.last.token_type == TokenTypes::Period && is_ascii_alpha(buf[s.index]) {
                acceptable_step(buf, s, TokenTypes::CallingType)
            } else {
                match match_seq(buf, s, "{".spec_bytes()) {
                    Some(q) => if q.bracket_depth == 255 {
                        None
                    } else {
                        let t = LexState { bracket_depth: (q.bracket_depth + 1) as u8, ..q };
                        Some((t, mk(t, TokenTypes::BlockStart)))
                    },
                    None => match match_seq(buf, s, "}".spec_bytes()) {
                        Some(q) => if q.bracket_depth == 0 {
                            let t = in_state(
                                q,
                                if q.state == TokenizerState::CODE_TO_STRUCT_TOP {
                                    TokenizerState::TOP_ELEMENT_TO_STRUCT
                                } else {
                                    TokenizerState::TOP_ELEMENT
                                },
                            );
                            Some((t, mk(t, TokenTypes::CodeEnd)))
                        } else {
                            let t = LexState { bracket_depth: (q.bracket_depth - 1) as u8, ..q };
                            Some((t, mk(t, TokenTypes::BlockEnd)))
                        },
                        None => match match_seq(buf, s, ".".spec_bytes()) {
                            Some(q) => if q.index >= buf.len() {
                                None
                            } else if is_ascii_digit(buf[q.index]) {
                                if q.index < 2 {
                                    None
                                } else if is_ascii_digit(buf[q.index - 2]) {
                                    Some(numbers(buf, at(q, q.index - 1), false))
                                } else {
                                    Some((q, mk(q, TokenTypes::Period)))
                                }
                            } else {
                                Some((q, mk(q, TokenTypes::Period)))
                            },
                            None => match match_seq(buf, s, "\"".spec_bytes()) {
                                Some(q) => {
                                    let t = in_state(
                                        q,
                                        if q.state == TokenizerState::CODE {
                                            TokenizerState::STRING
                                        } else {
                                            TokenizerState::STRING_TO_CODE_STRUCT_TOP
                                        },
                                    );
                                    Some((t, mk(t, TokenTypes::StringStart)))
                                },
                                None => match match_seq(buf, s, "'".spec_bytes()) {
                                    Some(q) => {
                                        let q1 = at(q, q.index + 1);
                                        if q1.index > buf.len() {
                                            None
                                        } else {
                                            match match_seq(buf, q1, "'".spec_bytes()) {
                                                Some(q2) => Some((q2, mk(q2, TokenTypes::Char))),
                                                None => to_line_end(buf, q1, TokenTypes::InvalidCharacters),
                                            }
                                        }
                                    },
                                    None => code_fallback(buf, s),
                                },
                            },
                        },
                    },
                }
            },
        }
    }
}

/// The keyword table, as the code tokenizer reads it.
fn keywords() -> (r: [(&'static str, bool, TokenTypes); 19])
    ensures
        r@ == keyword_table(),
{
    [
        (";", false, TokenTypes::LineEnd),
        (",", false, TokenTypes::ArgumentEnd),
        ("(", false, TokenTypes::ParenOpen),
        (")", false, TokenTypes::ParenClose),
        ("return", true, TokenTypes::Return),
        ("break", true, TokenTypes::Break),
        ("switch", true, TokenTypes::Switch),
        ("true", true, TokenTypes::True),
        ("false", true, TokenTypes::False),
        ("for", true, TokenTypes::For),
        ("while", true, TokenTypes::While),
        ("new", true, TokenTypes::New),
        ("if", true, TokenTypes::If),
        ("do", true, TokenTypes::Do),
        ("else", true, TokenTypes::Else),
        ("in", true, TokenTypes::In),
        (":", false, TokenTypes::Colon),
        ("let", true, TokenTypes::Let),
        ("=", false, TokenTypes::Equals),
    ]
}

/// `check_keywords`, with `None` where a word would be matched at the end of the buffer.
fn keywords_opt(tokenizer: &mut Tokenizer) -> (r: Option<Option<Token>>)
    requires
        old(tokenizer).wf(),
        old(tokenizer).index <= old(tokenizer).len,
    ensures
        final(tokenizer).same_source(*old(tokenizer)),
        match keywords_step(old(tokenizer).buffer@, old(tokenizer)@) {
            None => r is None,
            Some(None) => r == Some(None::<Token>) && *final(tokenizer) == *old(tokenizer),
            Some(Some((s, t))) => r == Some(Some(t)) && final(tokenizer)@ == s && final(tokenizer).wf(),
        },
        final(tokenizer).last == old(tokenizer).last,
{
    reveal(keywords_step);
    let ghost buf = tokenizer.buffer@;
    let table = keywords();
    let mut i: usize = 0;
    while i < 19
        invariant
            tokenizer.wf(),
            *tokenizer == *old(tokenizer),
            buf == tokenizer.buffer@,
            tokenizer.index <= tokenizer.len,
            table@ == keyword_table(),
            i <= 19,
            keyword_scan(buf, tokenizer@, 0) == keyword_scan(buf, tokenizer@, i as int),
        decreases 19 - i,
    {
        proof {
            reveal(keywords_step);
        }
        let (text, word, token_type) = table[i];
        if word {
            match tokenizer.word_match(text) {
                None => {
                    return None;
                },
                Some(true) => {
                    return Some(Some(tokenizer.make_token(token_type)));
                },
                Some(false) => {},
            }
        } else {
            if tokenizer.matches(text) {
                return Some(Some(tokenizer.make_token(token_type)));
            }
        }
        i += 1;
    }
    Some(None)
}

/// Checks for the keywords and symbols of code (see `keyword_table`); where none comes
/// next, the tokenizer is left as it was.
pub fn check_keywords(tokenizer: &mut Tokenizer) -> (r: Option<Token>)
    requires
        old(tokenizer).wf(),
        old(tokenizer).index <= old(tokenizer).len,
        keywords_step(old(tokenizer).buffer@, old(tokenizer)@) is Some,
    ensures
        final(tokenizer).wf(),
        final(tokenizer).same_source(*old(tokenizer)),
        match keywords_step(old(tokenizer).buffer@, old(tokenizer)@).unwrap() {
            None => r is None && *final(tokenizer) == *old(tokenizer),
            Some((s, t)) => r == Some(t) && final(tokenizer)@ == s,
        },
        final(tokenizer).last == old(tokenizer).last,
{
    keywords_opt(tokenizer).unwrap()
}

/// `next_code_token`, with `None` where the step cannot be taken.
pub(crate) fn code_opt(tokenizer: &mut Tokenizer) -> (r: Option<Token>)
    requires
        old(tokenizer).wf(),
    ensures
        final(tokenizer).same_source(*old(tokenizer)),
        match code_step(old(tokenizer).buffer@, old(tokenizer)@) {
            Some((s, t)) => r == Some(t) && final(tokenizer)@ == s && final(tokenizer).wf(),
            None => r is None,
        },
        r matches Some(t) ==> follows(t, old(tokenizer).last) && final(tokenizer).last == old(tokenizer).last,
{
    reveal(code_step);
    reveal(keywords_step);
    reveal(code_fallback);
    let ghost buf = tokenizer.buffer@;
    if tokenizer.index > tokenizer.len {
        return None;
    }
    match keywords_opt(tokenizer) {
        None => {
            return None;
        },
        Some(Some(found)) => {
            return Some(found);
        },
        Some(None) => {},
    }
    let ghost s = tokenizer@;
    proof {
        lemma_match_seq(buf, s, "{".spec_bytes());
        lemma_match_seq(buf, s, "}".spec_bytes());
        lemma_match_seq(buf, s, ".".spec_bytes());
        lemma_match_seq(buf, s, "\"".spec_bytes());
        lemma_match_seq(buf, s, "'".spec_bytes());
        reveal_strlit(".");
        vstd::string::is_ascii_spec_bytes(".");
        lemma_match_last(buf, s, ".".spec_bytes());
    }
    if tokenizer.last.token_type == TokenTypes::Period && tokenizer.index >= tokenizer.len {
        return None;
    }
    if tokenizer.last.token_type == TokenTypes::Period && is_ascii_alphabetic(tokenizer.buffer[tokenizer.index]) {
        acceptable_opt(tokenizer, TokenTypes::CallingType)
    } else if tokenizer.matches("{") {
        if tokenizer.bracket_depth == 255 {
            return None;
        }
        tokenizer.bracket_depth += 1;
        Some(tokenizer.make_token(TokenTypes::BlockStart))
    } else if tokenizer.matches("}") {
        if tokenizer.bracket_depth == 0 {
            // If it's the last matching bracket, then end the code block.
            if tokenizer.state == TokenizerState::CODE_TO_STRUCT_TOP {
                tokenizer.state = TokenizerState::TOP_ELEMENT_TO_STRUCT;
            } else {
                tokenizer.state = TokenizerState::TOP_ELEMENT;
            }
            Some(tokenizer.make_token(TokenTypes::CodeEnd))
        } else {
            // There's another bracket, so this is just the end of the block.
            tokenizer.bracket_depth -= 1;
            Some(tokenizer.make_token(TokenTypes::BlockEnd))
        }
    } else if tokenizer.matches(".") {
        // This is only a number if the thing before and after is a digit. "1." and ".1" aren't numbers.
        if tokenizer.index >= tokenizer.len {
            return None;
        }
        if is_digit(tokenizer.buffer[tokenizer.index]) {
            if tokenizer.index < 2 {
                return None;
            }
            if is_digit(tokenizer.buffer[tokenizer.index - 2]) {
                tokenizer.index -= 1;
                return Some(parse_numbers(tokenizer));
            }
        }
        Some(tokenizer.make_token(TokenTypes::Period))
    } else if tokenizer.matches("\"") {
        // Changes the state type based on what the current state already is.
        tokenizer.state = if tokenizer.state == TokenizerState::CODE {
            TokenizerState::STRING
        } else {
            TokenizerState::STRING_TO_CODE_STRUCT_TOP
        };
        Some(tokenizer.make_token(TokenTypes::StringStart))
    } else if tokenizer.matches("'") {
        tokenizer.index += 1;
        if tokenizer.index > tokenizer.len {
            return None;
        }
        proof {
            lemma_match_seq(buf, tokenizer@, "'".spec_bytes());
        }
        if tokenizer.matches("'") {
            Some(tokenizer.make_token(TokenTypes::Char))
        } else {
            Some(tokenizer.handle_invalid())
        }
    } else {
        proof {
            lemma_included(buf, tokenizer@);
        }
        let found = match tokenizer.next_included() {
            Err(token) => {
                return Some(token);
            },
            Ok(c) => c,
        };
        proof {
            lemma_match_seq(buf, tokenizer@, "//".spec_bytes());
        }
        if tokenizer.matches("//") {
            Some(tokenizer.parse_to_line_end(TokenTypes::Comment))
        } else if char_is_alphabetic(found as char) || found == 95 {
            // A character or an underscore is a variable.
            acceptable_opt(tokenizer, TokenTypes::Variable)
        } else if found >= 48 && found <= 57 {
            // A number is a number.
            Some(parse_numbers(tokenizer))
        } else {
            // Everything else is an operator.
            Some(tokenizer.make_token(TokenTypes::Operator))
        }
    }
}

/// Gets the next token in a block of code (see `code_step`).
pub fn next_code_token(tokenizer: &mut Tokenizer) -> (t: Token)
    requires
        old(tokenizer).wf(),
        code_step(old(tokenizer).buffer@, old(tokenizer)@) is Some,
    ensures
        final(tokenizer).wf(),
        final(tokenizer).same_source(*old(tokenizer)),
        code_step(old(tokenizer).buffer@, old(tokenizer)@) == Some((final(tokenizer)@, t)),
        final(tokenizer).last == old(tokenizer).last,
        follows(t, old(tokenizer).last),
{
    code_opt(tokenizer).unwrap()
}

} // verus!

verus! {

proof fn lemma_match_plain(buf: Seq<u8>, s: LexState, input: Seq<u8>)
    requires
        0 <= s.index,
        s.index + input.len() <= buf.len(),
        forall|k: int| 0 <= k < input.len() ==> buf[s.index + k] == input[k] && !is_ws(input[k]),
    ensures
        match_seq(buf, s, input) == Some(at(s, s.index + input.len())),
    decreases input.len(),
{
    if input.len() > 0 {
        assert(buf[s.index + 0] == input[0]);
        assert(crate::tokenizer::skip_ws(buf, s) == s);
        let s1 = at(s, s.index + 1);
        assert forall|k: int| 0 <= k < input.drop_first().len() implies buf[s1.index + k] == input.drop_first()[k]
            && !is_ws(input.drop_first()[k]) by {
            assert(buf[s.index + (k + 1)] == input[k + 1]);
        }
        lemma_match_plain(buf, s1, input.drop_first());
        assert(at(s1, s1.index + input.drop_first().len()) == at(s, s.index + input.len()));
    }
}

proof fn lemma_match_differs(buf: Seq<u8>, s: LexState, input: Seq<u8>)
    requires
        0 <= s.index < buf.len(),
        !is_ws(buf[s.index]),
        input.len() > 0,
        input[0] != buf[s.index],
    ensures
        match_seq(buf, s, input) is None,
{
    assert(crate::tokenizer::skip_ws(buf, s) == s);
}

/// The bytes of the keyword texts up to `false`, as the table holds them.
proof fn lemma_keyword_bytes()
    ensures
        ";".spec_bytes() =~= seq![59u8],
        ",".spec_bytes() =~= seq![44u8],
        "(".spec_bytes() =~= seq![40u8],
        ")".spec_bytes() =~= seq![41u8],
        "return".spec_bytes()[0] == 114,
        "return".spec_bytes().len() == 6,
        "break".spec_bytes()[0] == 98,
        "break".spec_bytes().len() == 5,
        "switch".spec_bytes()[0] == 115,
        "switch".spec_bytes().len() == 6,
        "true".spec_bytes() =~= seq![116u8, 114, 117, 101],
        "false".spec_bytes() =~= seq![102u8, 97, 108, 115, 101],
{
    reveal_strlit(";");
    reveal_strlit(",");
    reveal_strlit("(");
    reveal_strlit(")");
    reveal_strlit("return");
    reveal_strlit("break");
    reveal_strlit("switch");
    reveal_strlit("true");
    reveal_strlit("false");
    vstd::string::is_ascii_spec_bytes(";");
    vstd::string::is_ascii_spec_bytes(",");
    vstd::string::is_ascii_spec_bytes("(");
    vstd::string::is_ascii_spec_bytes(")");
    vstd::string::is_ascii_spec_bytes("return");
    vstd::string::is_ascii_spec_bytes("break");
    vstd::string::is_ascii_spec_bytes("switch");
    vstd::string::is_ascii_spec_bytes("true");
    vstd::string::is_ascii_spec_bytes("false");
}

/// Whether the bytes from `i` on spell `word` and a byte that is no letter follows it.
pub open spec fn word_at(buf: Seq<u8>, i: int, word: Seq<u8>) -> bool {
    &&& 0 <= i
    &&& i + word.len() < buf.len()
    &&& buf.subrange(i, i + word.len()) == word
    &&& !is_ascii_alpha(buf[i + word.len()])
}

proof fn lemma_literal_word(buf: Seq<u8>, s: LexState, word: Seq<u8>, position: int)
    requires
        word_at(buf, s.index, word),
        (word == seq![116u8, 114, 117, 101] && position == 7) || (word == seq![102u8, 97, 108, 115, 101] && position
            == 8),
    ensures
        keywords_step(buf, s) matches Some(Some((q, t))) && q == at(s, s.index + word.len()) && t == mk(
            q,
            if position == 7 { TokenTypes::True } else { TokenTypes::False },
        ),
{
    reveal(keywords_step);
    lemma_keyword_bytes();
    let i = s.index;
    assert(buf[i] == word[0]) by {
        assert(buf.subrange(i, i + word.len())[0] == buf[i]);
    }
    assert(!is_ws(buf[i]));
    let table = keyword_table();
    assert(table[0].0 == ";" && !table[0].1);
    assert(table[1].0 == "," && !table[1].1);
    assert(table[2].0 == "(" && !table[2].1);
    assert(table[3].0 == ")" && !table[3].1);
    assert(table[4].0 == "return" && table[4].1);
    assert(table[5].0 == "break" && table[5].1);
    assert(table[6].0 == "switch" && table[6].1);
    assert(table[7] == ("true", true, TokenTypes::True));
    assert(table[8] == ("false", true, TokenTypes::False));
    lemma_match_differs(buf, s, ";".spec_bytes());
    lemma_match_differs(buf, s, ",".spec_bytes());
    lemma_match_differs(buf, s, "(".spec_bytes());
    lemma_match_differs(buf, s, ")".spec_bytes());
    lemma_match_differs(buf, s, "return".spec_bytes());
    lemma_match_differs(buf, s, "break".spec_bytes());
    lemma_match_differs(buf, s, "switch".spec_bytes());
    assert(keyword_scan(buf, s, 0) == keyword_scan(buf, s, 1));
    assert(keyword_scan(buf, s, 1) == keyword_scan(buf, s, 2));
    assert(keyword_scan(buf, s, 2) == keyword_scan(buf, s, 3));
    assert(keyword_scan(buf, s, 3) == keyword_scan(buf, s, 4));
    assert(keyword_scan(buf, s, 4) == keyword_scan(buf, s, 5));
    assert(keyword_scan(buf, s, 5) == keyword_scan(buf, s, 6));
    assert(keyword_scan(buf, s, 6) == keyword_scan(buf, s, 7));
    assert forall|k: int| 0 <= k < word.len() implies buf[i + k] == word[k] && !is_ws(word[k]) by {
        assert(buf.subrange(i, i + word.len())[k] == buf[i + k]);
    }
    lemma_match_plain(buf, s, word);
    if position == 7 {
        assert(match_word(buf, s, "true".spec_bytes()) == Some(Some(at(s, i + 4))));
    } else {
        lemma_match_differs(buf, s, "true".spec_bytes());
        assert(keyword_scan(buf, s, 7) == keyword_scan(buf, s, 8));
        assert(match_word(buf, s, "false".spec_bytes()) == Some(Some(at(s, i + 5))));
    }
}

/// Law: in code, the word `true` standing alone becomes a token of type `True` and the word
/// `false` a token of type `False`, running to the end of the word.
pub proof fn law_boolean_keywords(buf: Seq<u8>, s: LexState)
    requires
        buf.len() <= crate::tokenizer::MAX_SOURCE_LEN,
        s.state == TokenizerState::CODE || s.state == TokenizerState::CODE_TO_STRUCT_TOP,
    ensures
        word_at(buf, s.index, seq![116u8, 114, 117, 101]) ==> (code_step(buf, s) matches Some((q, t))
            && t.token_type == TokenTypes::True && q.index == s.index + 4 && t.end_offset == s.index + 4),
        word_at(buf, s.index, seq![102u8, 97, 108, 115, 101]) ==> (code_step(buf, s) matches Some((q, t))
            && t.token_type == TokenTypes::False && q.index == s.index + 5 && t.end_offset == s.index + 5),
{
    reveal(code_step);
    if word_at(buf, s.index, seq![116u8, 114, 117, 101]) {
        lemma_literal_word(buf, s, seq![116u8, 114, 117, 101], 7);
        assert(keywords_step(buf, s) is Some);
    }
    if word_at(buf, s.index, seq![102u8, 97, 108, 115, 101]) {
        lemma_literal_word(buf, s, seq![102u8, 97, 108, 115, 101], 8);
    }
}

/// The bytes of each text of the keyword table, in its order.
pub open spec fn keyword_texts() -> Seq<Seq<u8>> {
    seq![
        seq![59u8],
        seq![44u8],
        seq![40u8],
        seq![41u8],
        seq![114u8, 101, 116, 117, 114, 110],
        seq![98u8, 114, 101, 97, 107],
        seq![115u8, 119, 105, 116, 99, 104],
        seq![116u8, 114, 117, 101],
        seq![102u8, 97, 108, 115, 101],
        seq![102u8, 111, 114],
        seq![119u8, 104, 105, 108, 101],
        seq![110u8, 101, 119],
        seq![105u8, 102],
        seq![100u8, 111],
        seq![101u8, 108, 115, 101],
        seq![105u8, 110],
        seq![58u8],
        seq![108u8, 101, 116],
        seq![61u8],
    ]
}

proof fn lemma_keyword_text(k: int)
    requires
        0 <= k < 19,
    ensures
        keyword_table().len() == 19,
        keyword_table()[k].0.spec_bytes() == keyword_texts()[k],
{
    reveal_strlit(";");
    reveal_strlit(",");
    reveal_strlit("(");
    reveal_strlit(")");
    reveal_strlit("return");
    reveal_strlit("break");
    reveal_strlit("switch");
    reveal_strlit("true");
    reveal_strlit("false");
    reveal_strlit("for");
    reveal_strlit("while");
    reveal_strlit("new");
    reveal_strlit("if");
    reveal_strlit("do");
    reveal_strlit("else");
    reveal_strlit("in");
    reveal_strlit(":");
    reveal_strlit("let");
    reveal_strlit("=");
    let t = keyword_table();
    let b = keyword_texts();
    if k == 0 {
        vstd::string::is_ascii_spec_bytes(";");
        assert(t[0].0.spec_bytes() =~= b[0]);
    } else if k == 1 {
        vstd::string::is_ascii_spec_bytes(",");
        assert(t[1].0.spec_bytes() =~= b[1]);
    } else if k == 2 {
        vstd::string::is_ascii_spec_bytes("(");
        assert(t[2].0.spec_bytes() =~= b[2]);
    } else if k == 3 {
        vstd::string::is_ascii_spec_bytes(")");
        assert(t[3].0.spec_bytes() =~= b[3]);
    } else if k == 4 {
        vstd::string::is_ascii_spec_bytes("return");
        assert(t[4].0.spec_bytes() =~= b[4]);
    } else if k == 5 {
        vstd::string::is_ascii_spec_bytes("break");
        assert(t[5].0.spec_bytes() =~= b[5]);
    } else if k == 6 {
        vstd::string::is_ascii_spec_bytes("switch");
        assert(t[6].0.spec_bytes() =~= b[6]);
    } else if k == 7 {
        vstd::string::is_ascii_spec_bytes("true");
        assert(t[7].0.spec_bytes() =~= b[7]);
    } else if k == 8 {
        vstd::string::is_ascii_spec_bytes("false");
        assert(t[8].0.spec_bytes() =~= b[8]);
    } else if k == 9 {
        vstd::string::is_ascii_spec_bytes("for");
        assert(t[9].0.spec_bytes() =~= b[9]);
    } else if k == 10 {
        vstd::string::is_ascii_spec_bytes("while");
        assert(t[10].0.spec_bytes() =~= b[10]);
    } else if k == 11 {
        vstd::string::is_ascii_spec_bytes("new");
        assert(t[11].0.spec_bytes() =~= b[11]);
    } else if k == 12 {
        vstd::string::is_ascii_spec_bytes("if");
        assert(t[12].0.spec_bytes() =~= b[12]);
    } else if k == 13 {
        vstd::string::is_ascii_spec_bytes("do");
        assert(t[13].0.spec_bytes() =~= b[13]);
    } else if k == 14 {
        vstd::string::is_ascii_spec_bytes("else");
        assert(t[14].0.spec_bytes() =~= b[14]);
    } else if k == 15 {
        vstd::string::is_ascii_spec_bytes("in");
        assert(t[15].0.spec_bytes() =~= b[15]);
    } else if k == 16 {
        vstd::string::is_ascii_spec_bytes(":");
        assert(t[16].0.spec_bytes() =~= b[16]);
    } else if k == 17 {
        vstd::string::is_ascii_spec_bytes("let");
        assert(t[17].0.spec_bytes() =~= b[17]);
    } else {
        vstd::string::is_ascii_spec_bytes("=");
        assert(t[18].0.spec_bytes() =~= b[18]);
    }
}

/// Whether `text` differs from `w` in its first byte, or in its second.
pub open spec fn differs_early(text: Seq<u8>, w: Seq<u8>) -> bool {
    &&& text.len() > 0
    &&& w.len() > 0
    &&& (text[0] != w[0] || (text.len() > 1 && w.len() > 1 && text[1] != w[1]))
}

/// Whether every keyword text from the `j`th to before the `n`th differs early from `w`.
pub open spec fn all_differ_early(w: Seq<u8>, j: int, n: int) -> bool
    decreases n - j,
{
    j >= n || (0 <= j < keyword_texts().len() && differs_early(keyword_texts()[j], w) && all_differ_early(
        w,
        j + 1,
        n,
    ))
}

/// Whether `w` stands at `s.index` byte for byte, with no whitespace in it.
pub open spec fn plain_at(buf: Seq<u8>, s: LexState, w: Seq<u8>) -> bool {
    &&& 0 <= s.index
    &&& s.index + w.len() <= buf.len()
    &&& forall|k: int| 0 <= k < w.len() ==> buf[s.index + k] == w[k] && !is_ws(w[k])
}

proof fn lemma_scan_skip(buf: Seq<u8>, s: LexState, j: int, w: Seq<u8>)
    requires
        0 <= j < 19,
        plain_at(buf, s, w),
        differs_early(keyword_texts()[j], w),
    ensures
        keyword_scan(buf, s, j) == keyword_scan(buf, s, j + 1),
{
    lemma_keyword_text(j);
    let a = keyword_texts()[j];
    assert(buf[s.index + 0] == w[0]);
    if a[0] != w[0] {
        lemma_match_differs(buf, s, a);
    } else {
        assert(buf[s.index + 1] == w[1]);
        assert(crate::tokenizer::skip_ws(buf, s) == s);
        let s1 = at(s, s.index + 1);
        assert(crate::tokenizer::skip_ws(buf, s1) == s1);
        lemma_match_differs(buf, s1, a.drop_first());
        assert(match_seq(buf, s, a) == match_seq(buf, s1, a.drop_first()));
    }
}

proof fn lemma_scan_skip_to(buf: Seq<u8>, s: LexState, j: int, n: int, w: Seq<u8>)
    requires
        0 <= j <= n <= 19,
        plain_at(buf, s, w),
        all_differ_early(w, j, n),
    ensures
        keyword_scan(buf, s, j) == keyword_scan(buf, s, n),
    decreases n - j,
{
    if j < n {
        lemma_scan_skip(buf, s, j, w);
        lemma_scan_skip_to(buf, s, j + 1, n, w);
    }
}

proof fn lemma_keyword_found(buf: Seq<u8>, s: LexState, n: int, w: Seq<u8>)
    requires
        0 <= n < 19,
        keyword_texts()[n] == w,
        w.len() > 0,
        plain_at(buf, s, w),
        keyword_table()[n].1 ==> s.index + w.len() < buf.len() && !is_ascii_alpha(buf[s.index + w.len()]),
        all_differ_early(w, 0, n),
    ensures
        code_step(buf, s) == Some(
            (at(s, s.index + w.len()), mk(at(s, s.index + w.len()), keyword_table()[n].2)),
        ),
{
    reveal(code_step);
    reveal(keywords_step);
    lemma_keyword_text(n);
    lemma_scan_skip_to(buf, s, 0, n, w);
    lemma_match_plain(buf, s, w);
}

/// Whether a code step at `s`, where the bytes of `word` stand alone, gives a token of type
/// `token_type` that ends with the word.
pub open spec fn word_gives(buf: Seq<u8>, s: LexState, word: Seq<u8>, token_type: TokenTypes) -> bool {
    word_at(buf, s.index, word) ==> (code_step(buf, s) matches Some((q, t)) && t.token_type == token_type
        && q.index == s.index + word.len() && t.end_offset == q.index)
}

/// Whether a code step at `s`, where the byte `symbol` stands, gives a token of type
/// `token_type` that ends with it.
pub open spec fn symbol_gives(buf: Seq<u8>, s: LexState, symbol: u8, token_type: TokenTypes) -> bool {
    (0 <= s.index < buf.len() && buf[s.index] == symbol) ==> (code_step(buf, s) matches Some((q, t))
        && t.token_type == token_type && q.index == s.index + 1 && t.end_offset == q.index)
}

proof fn lemma_word_gives(buf: Seq<u8>, s: LexState, n: int, w: Seq<u8>)
    requires
        0 <= n < 19,
        keyword_texts()[n] == w,
        w.len() > 0,
        keyword_table()[n].1,
        forall|k: int| 0 <= k < w.len() ==> is_ascii_alpha(#[trigger] w[k]),
        all_differ_early(w, 0, n),
        buf.len() <= crate::tokenizer::MAX_SOURCE_LEN,
    ensures
        word_gives(buf, s, w, keyword_table()[n].2),
{
    if word_at(buf, s.index, w) {
        assert forall|k: int| 0 <= k < w.len() implies buf[s.index + k] == w[k] && !is_ws(w[k]) by {
            assert(buf.subrange(s.index, s.index + w.len())[k] == buf[s.index + k]);
            assert(is_ascii_alpha(w[k]));
        }
        lemma_keyword_found(buf, s, n, w);
    }
}

proof fn lemma_symbol_gives(buf: Seq<u8>, s: LexState, n: int, b: u8)
    requires
        0 <= n < 19,
        keyword_texts()[n] == seq![b],
        !keyword_table()[n].1,
        !is_ws(b),
        all_differ_early(seq![b], 0, n),
        buf.len() <= crate::tokenizer::MAX_SOURCE_LEN,
    ensures
        symbol_gives(buf, s, b, keyword_table()[n].2),
{
    if 0 <= s.index < buf.len() && buf[s.index] == b {
        lemma_keyword_text(n);
        assert(plain_at(buf, s, seq![b]));
        lemma_keyword_found(buf, s, n, seq![b]);
    }
}

/// Law: in code, each keyword standing alone becomes the token of its kind (`return`,
/// `break`, `switch`, `true`, `false`, `for`, `while`, `new`, `if`, `do`, `else`, `in`,
/// `let`), and each of the symbols `;`, `,`, `(`, `)`, `:` and `=` the token of its kind,
/// the token ending where the keyword or symbol ends.
pub proof fn law_code_keywords(buf: Seq<u8>, s: LexState)
    requires
        buf.len() <= crate::tokenizer::MAX_SOURCE_LEN,
    ensures
        symbol_gives(buf, s, 59, TokenTypes::LineEnd),
        symbol_gives(buf, s, 44, TokenTypes::ArgumentEnd),
        symbol_gives(buf, s, 40, TokenTypes::ParenOpen),
        symbol_gives(buf, s, 41, TokenTypes::ParenClose),
        word_gives(buf, s, seq![114u8, 101, 116, 117, 114, 110], TokenTypes::Return),
        word_gives(buf, s, seq![98u8, 114, 101, 97, 107], TokenTypes::Break),
        word_gives(buf, s, seq![115u8, 119, 105, 116, 99, 104], TokenTypes::Switch),
        word_gives(buf, s, seq![116u8, 114, 117, 101], TokenTypes::True),
        word_gives(buf, s, seq![102u8, 97, 108, 115, 101], TokenTypes::False),
        word_gives(buf, s, seq![102u8, 111, 114], TokenTypes::For),
        word_gives(buf, s, seq![119u8, 104, 105, 108, 101], TokenTypes::While),
        word_gives(buf, s, seq![110u8, 101, 119], TokenTypes::New),
        word_gives(buf, s, seq![105u8, 102], TokenTypes::If),
        word_gives(buf, s, seq![100u8, 111], TokenTypes::Do),
        word_gives(buf, s, seq![101u8, 108, 115, 101], TokenTypes::Else),
        word_gives(buf, s, seq![105u8, 110], TokenTypes::In),
        symbol_gives(buf, s, 58, TokenTypes::Colon),
        word_gives(buf, s, seq![108u8, 101, 116], TokenTypes::Let),
        symbol_gives(buf, s, 61, TokenTypes::Equals),
{
    assert(all_differ_early(seq![59u8], 0, 0));
    lemma_symbol_gives(buf, s, 0, 59);
    assert(all_differ_early(seq![44u8], 0, 1)) by {
        reveal_with_fuel(all_differ_early, 20);
    }
    lemma_symbol_gives(buf, s, 1, 44);
    assert(all_differ_early(seq![40u8], 0, 2)) by {
        reveal_with_fuel(all_differ_early, 20);
    }
    lemma_symbol_gives(buf, s, 2, 40);
    assert(all_differ_early(seq![41u8], 0, 3)) by {
        reveal_with_fuel(all_differ_early, 20);
    }
    lemma_symbol_gives(buf, s, 3, 41);
    assert(all_differ_early(seq![114u8, 101, 116, 117, 114, 110], 0, 4)) by {
        reveal_with_fuel(all_differ_early, 20);
    }
    lemma_word_gives(buf, s, 4, seq![114u8, 101, 116, 117, 114, 110]);
    assert(all_differ_early(seq![98u8, 114, 101, 97, 107], 0, 5)) by {
        reveal_with_fuel(all_differ_early, 20);
    }
    lemma_word_gives(buf, s, 5, seq![98u8, 114, 101, 97, 107]);
    assert(all_differ_early(seq![115u8, 119, 105, 116, 99, 104], 0, 6)) by {
        reveal_with_fuel(all_differ_early, 20);
    }
    lemma_word_gives(buf, s, 6, seq![115u8, 119, 105, 116, 99, 104]);
    assert(all_differ_early(seq![116u8, 114, 117, 101], 0, 7)) by {
        reveal_with_fuel(all_differ_early, 20);
    }
    lemma_word_gives(buf, s, 7, seq![116u8, 114, 117, 101]);
    assert(all_differ_early(seq![102u8, 97, 108, 115, 101], 0, 8)) by {
        reveal_with_fuel(all_differ_early, 20);
    }
    lemma_word_gives(buf, s, 8, seq![102u8, 97, 108, 115, 101]);
    assert(all_differ_early(seq![102u8, 111, 114], 0, 9)) by {
        reveal_with_fuel(all_differ_early, 20);
    }
    lemma_word_gives(buf, s, 9, seq![102u8, 111, 114]);
    assert(all_differ_early(seq![119u8, 104, 105, 108, 101], 0, 10)) by {
        reveal_with_fuel(all_differ_early, 20);
    }
    lemma_word_gives(buf, s, 10, seq![119u8, 104, 105, 108, 101]);
    assert(all_differ_early(seq![110u8, 101, 119], 0, 11)) by {
        reveal_with_fuel(all_differ_early, 20);
    }
    lemma_word_gives(buf, s, 11, seq![110u8, 101, 119]);
    assert(all_differ_early(seq![105u8, 102], 0, 12)) by {
        reveal_with_fuel(all_differ_early, 20);
    }
    lemma_word_gives(buf, s, 12, seq![105u8, 102]);
    assert(all_differ_early(seq![100u8, 111], 0, 13)) by {
        reveal_with_fuel(all_differ_early, 20);
    }
    lemma_word_gives(buf, s, 13, seq![100u8, 111]);
    assert(all_differ_early(seq![101u8, 108, 115, 101], 0, 14)) by {
        reveal_with_fuel(all_differ_early, 20);
    }
    lemma_word_gives(buf, s, 14, seq![101u8, 108, 115, 101]);
    assert(all_differ_early(seq![105u8, 110], 0, 15)) by {
        reveal_with_fuel(all_differ_early, 20);
    }
    lemma_word_gives(buf, s, 15, seq![105u8, 110]);
    assert(all_differ_early(seq![58u8], 0, 16)) by {
        reveal_with_fuel(all_differ_early, 20);
    }
    lemma_symbol_gives(buf, s, 16, 58);
    assert(all_differ_early(seq![108u8, 101, 116], 0, 17)) by {
        reveal_with_fuel(all_differ_early, 20);
    }
    lemma_word_gives(buf, s, 17, seq![108u8, 101, 116]);
    assert(all_differ_early(seq![61u8], 0, 18)) by {
        reveal_with_fuel(all_differ_early, 20);
    }
    lemma_symbol_gives(buf, s, 18, 61);
}

} // verus!
