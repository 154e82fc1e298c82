//! The tokenizer (lexer): the cursor over a source buffer and its basic moves.
//!
//! The tokenizer's behaviour is stated over `LexState`, the tokenizer's fields as
//! mathematical values, and the source buffer as a `Seq<u8>`. Each step is specified as a
//! spec function that gives the next state and token, or `None` where the step cannot be
//! taken (the buffer would be read out of bounds, or a counter would overflow).
use vstd::prelude::*;
use vstd::string::StringSliceAdditionalSpecFns;

use crate::code_tokenizer::{code_opt, code_step};
use crate::token_util::{generic_opt, generic_step, string_opt, string_step};
use crate::top_tokenizer::{func_opt, func_step, impl_opt, impl_step, struct_opt, struct_step, top_opt, top_step};
use crate::tokens::{Token, TokenCodeData, TokenTypes};

verus! {

/// The longest source buffer the tokenizer accepts: the largest length for which every
/// index the tokenizer reaches (up to three bytes past the end), every line start and every
/// line number fits the `u32` positions of a token, and the `usize` of a 32-bit machine.
pub const MAX_SOURCE_LEN: usize = 0xffff_fffc;

/// Names for the tokenizer states.
/// Some states map to the same method, but just have different names because they return
/// to different states.
#[non_exhaustive]
pub struct TokenizerState {}

impl TokenizerState {
    /// Parsing a string like "Test"
    pub const STRING: u64 = 0;
    /// A string that returns to the code top. For example, in static variables.
    pub const STRING_TO_CODE_STRUCT_TOP: u64 = 1;
    /// The top of the file, not inside anything.
    pub const TOP_ELEMENT: u64 = 2;
    /// Inside a structure declaration
    pub const STRUCTURE: u64 = 3;
    /// Inside an implementation declaration, turns into a STRUCTURE for the body
    pub const IMPLEMENTATION: u64 = 4;
    /// Inside a function
    pub const FUNCTION: u64 = 5;
    /// Inside a function that's inside a structure or impl
    pub const FUNCTION_TO_STRUCT_TOP: u64 = 6;
    /// Inside the generic declaration of a function declaration.
    pub const GENERIC_TO_FUNC: u64 = 7;
    /// Inside the generic declaration of a function declaration in a structure.
    pub const GENERIC_TO_FUNC_TO_STRUCT_TOP: u64 = 8;
    /// Inside the generic declaration of a structure
    pub const GENERIC_TO_STRUCT: u64 = 9;
    /// Inside the generic declaration of an implementation
    pub const GENERIC_TO_IMPL: u64 = 10;
    /// The inside of a structure
    pub const TOP_ELEMENT_TO_STRUCT: u64 = 11;
    /// A block of code
    pub const CODE: u64 = 12;
    /// A block of code that returns to a structure
    pub const CODE_TO_STRUCT_TOP: u64 = 13;
}

/// This structure keeps track of the variables required for the tokenizing.
#[derive(Clone, Copy)]
pub struct Tokenizer<'a> {
    /// The current state. This is used to determine which method will handle the next token.
    /// See TokenizerState for all the states
    pub state: u64,
    /// The depth of brackets
    pub bracket_depth: u8,
    /// The depth of generics (within a <)
    pub generic_depth: u8,
    /// The index in the character buffer
    pub index: usize,
    /// The current line number
    pub line: u32,
    /// The index from the beginning of the line.
    pub line_index: u32,
    /// The last token that was parsed
    pub last: Token,
    /// The length of the file
    pub len: usize,
    /// A buffer of all characters in the file
    pub buffer: &'a [u8],
    /// Data for token errors
    pub code_data: Option<TokenCodeData>,
}

/// A saved tokenizer position, used to save/load the state of parsing mid-file.
#[derive(Clone, Copy)]
pub struct ParserState {
    /// The tokenizer state
    pub state: u64,
    /// The index in the buffer
    pub index: usize,
    /// The index at which the current line starts
    pub line_index: u32,
    /// The current line number
    pub line: u32,
    /// The last token that was parsed
    pub last: Token,
}

/// The tokenizer's fields as mathematical values; the buffer is kept apart.
pub struct LexState {
    pub state: u64,
    pub bracket_depth: u8,
    pub generic_depth: u8,
    pub index: int,
    pub line: int,
    pub line_index: int,
    pub last: Token,
    pub code_data: Option<TokenCodeData>,
}

impl<'a> View for Tokenizer<'a> {
    type V = LexState;

    open spec fn view(&self) -> LexState {
        LexState {
            state: self.state,
            bracket_depth: self.bracket_depth,
            generic_depth: self.generic_depth,
            index: self.index as int,
            line: self.line as int,
            line_index: self.line_index as int,
            last: self.last,
            code_data: self.code_data,
        }
    }
}

/// The well-formedness of a tokenizer state over a buffer: the line start precedes the
/// index and follows a newline, the line number is no larger than the line start allows,
/// and the index runs at most a few bytes past the end (where only a string escape or a
/// character literal at the very end of the buffer leaves it).
pub open spec fn lex_wf(buf: Seq<u8>, s: LexState) -> bool {
    &&& buf.len() <= MAX_SOURCE_LEN
    &&& 0 <= s.line_index <= s.index <= buf.len() + 3
    &&& 1 <= s.line <= s.line_index + 1
    &&& (s.line_index == 0 || (s.line_index <= buf.len() && buf[s.line_index - 1] == 10))
}

impl<'a> Tokenizer<'a> {
    /// The tokenizer's length field is the buffer's length and its state is well formed.
    pub open spec fn wf(&self) -> bool {
        &&& self.len == self.buffer@.len()
        &&& lex_wf(self.buffer@, self@)
    }

    /// Both tokenizers read the same buffer.
    pub open spec fn same_source(&self, other: Tokenizer) -> bool {
        &&& self.buffer == other.buffer
        &&& self.len == other.len
    }
}

/// The state of a fresh tokenizer.
pub open spec fn initial_lex_state() -> LexState {
    LexState {
        state: TokenizerState::TOP_ELEMENT,
        bracket_depth: 0,
        generic_depth: 1,
        index: 0,
        line: 1,
        line_index: 0,
        last: Token {
            token_type: TokenTypes::Start,
            start: (1, 0),
            start_offset: 0,
            end: (1, 0),
            end_offset: 0,
            code_data: None,
        },
        code_data: None,
    }
}

/// The token starts where `prev` ended.
pub open spec fn follows(t: Token, prev: Token) -> bool {
    t.start == prev.end && t.start_offset == prev.end_offset
}

/// The state with the index moved to `index`.
pub open spec fn at(s: LexState, index: int) -> LexState {
    LexState { index, ..s }
}

/// The state with the tokenizer state changed to `state`.
pub open spec fn in_state(s: LexState, state: u64) -> LexState {
    LexState { state, ..s }
}

/// Whitespace, which `next_included` passes over.
pub open spec fn is_ws(c: u8) -> bool {
    c == 32 || c == 10 || c == 13 || c == 9
}

/// Steps over the byte at the index, counting a newline.
pub open spec fn consume(buf: Seq<u8>, s: LexState) -> LexState {
    if buf[s.index] == 10 {
        LexState { index: s.index + 1, line: s.line + 1, line_index: s.index + 1, ..s }
    } else {
        at(s, s.index + 1)
    }
}

/// Steps over whitespace from the index.
pub open spec fn skip_ws(buf: Seq<u8>, s: LexState) -> LexState
    decreases buf.len() - s.index,
{
    if 0 <= s.index < buf.len() && is_ws(buf[s.index]) {
        skip_ws(buf, consume(buf, s))
    } else {
        s
    }
}

/// The token that spans from the end of the last token to the index.
pub open spec fn mk(s: LexState, token_type: TokenTypes) -> Token {
    Token {
        token_type,
        start: s.last.end,
        start_offset: s.last.end_offset,
        end: (s.line as u32, (s.index - s.line_index) as u32),
        end_offset: s.index as usize,
        code_data: s.code_data,
    }
}

/// What `next_included` does: skips whitespace and takes the next byte, or gives the
/// end-of-file token (without code data) at the end of the buffer.
pub open spec fn included(buf: Seq<u8>, s: LexState) -> (LexState, Result<u8, Token>) {
    let p = skip_ws(buf, s);
    if p.index < buf.len() {
        (at(p, p.index + 1), Ok(buf[p.index]))
    } else {
        (p, Err(Token { code_data: None, ..mk(p, TokenTypes::EOF) }))
    }
}

/// What `matches` does with `input`: the state after matching it byte by byte, each byte
/// taken by `next_included` (the end of the buffer reads as a space), or `None` if it does
/// not match.
pub open spec fn match_seq(buf: Seq<u8>, s: LexState, input: Seq<u8>) -> Option<LexState>
    decreases input.len(),
{
    if input.len() == 0 {
        Some(s)
    } else {
        let (s2, r) = included(buf, s);
        let found: u8 = match r {
            Ok(c) => c,
            Err(_) => 32,
        };
        if found == input[0] {
            match_seq(buf, s2, input.drop_first())
        } else {
            None
        }
    }
}

/// The ASCII letters.
pub open spec fn is_ascii_alpha(c: u8) -> bool {
    (65 <= c <= 90) || (97 <= c <= 122)
}

/// The ASCII digits.
pub open spec fn is_ascii_digit(c: u8) -> bool {
    48 <= c <= 57
}

/// What `matches_word` does: like `match_seq`, but the match must not be followed by a
/// letter. `None` where the match ends at the end of the buffer (the byte after it is read
/// out of bounds); `Some(None)` where it does not match.
pub open spec fn match_word(buf: Seq<u8>, s: LexState, input: Seq<u8>) -> Option<Option<LexState>> {
    match match_seq(buf, s, input) {
        None => Some(None),
        Some(q) => if q.index >= buf.len() {
            None
        } else if is_ascii_alpha(buf[q.index]) {
            Some(None)
        } else {
            Some(Some(q))
        },
    }
}

/// The first index from `i` that is the end of the buffer or holds `first` or `second`.
pub open spec fn scan_to_either(buf: Seq<u8>, i: int, first: u8, second: u8) -> int
    decreases buf.len() - i,
{
    if 0 <= i < buf.len() && buf[i] != first && buf[i] != second {
        scan_to_either(buf, i + 1, first, second)
    } else {
        i
    }
}

/// The first index from `i` that is the end of the buffer or holds a newline.
pub open spec fn line_end_pos(buf: Seq<u8>, i: int) -> int
    decreases buf.len() - i,
{
    if 0 <= i < buf.len() && buf[i] != 10 {
        line_end_pos(buf, i + 1)
    } else {
        i
    }
}

/// What `parse_to_line_end` does: at the end of the buffer an end-of-file token; else the
/// index moves to the next newline (or the end) and the token ends there, where the line
/// ends. `None` past the end of the buffer.
pub open spec fn to_line_end(buf: Seq<u8>, s: LexState, token_type: TokenTypes) -> Option<(LexState, Token)> {
    if s.index == buf.len() {
        Some((s, mk(s, TokenTypes::EOF)))
    } else if s.index > buf.len() {
        None
    } else {
        let t = at(s, line_end_pos(buf, s.index + 1));
        Some((t, mk(t, token_type)))
    }
}

/// Law: reading to the end of a line moves the tokenizer the same way whatever type the
/// token is given, and the tokens differ in their type alone (at the end of the buffer
/// both are end-of-file tokens). So `handle_invalid` is `parse_to_line_end` with the
/// invalid-characters type, and each line-end token ends where its line ends.
pub proof fn law_line_end_types(buf: Seq<u8>, s: LexState, a: TokenTypes, b: TokenTypes)
    requires
        lex_wf(buf, s),
        s.index <= buf.len(),
    ensures
        to_line_end(buf, s, a) is Some,
        to_line_end(buf, s, b) is Some,
        to_line_end(buf, s, a).unwrap().0 == to_line_end(buf, s, b).unwrap().0,
        to_line_end(buf, s, b).unwrap().1 == (Token {
            token_type: if s.index == buf.len() { TokenTypes::EOF } else { b },
            ..to_line_end(buf, s, a).unwrap().1
        }),
        to_line_end(buf, s, a).unwrap().1.end_offset == to_line_end(buf, s, a).unwrap().0.index,
        s.index < buf.len() ==> {
            let e = to_line_end(buf, s, a).unwrap().0.index;
            &&& s.index < e <= buf.len()
            &&& (e == buf.len() || buf[e] == 10)
            &&& forall|i: int| s.index < i < e ==> buf[i] != 10
        },
{
    if s.index < buf.len() {
        lemma_line_end_scan(buf, s.index + 1);
    }
}

proof fn lemma_line_end_scan(buf: Seq<u8>, i: int)
    requires
        0 <= i <= buf.len(),
    ensures
        i <= line_end_pos(buf, i) <= buf.len(),
        line_end_pos(buf, i) == buf.len() || buf[line_end_pos(buf, i)] == 10,
        forall|j: int| i <= j < line_end_pos(buf, i) ==> buf[j] != 10,
    decreases buf.len() - i,
{
    if i < buf.len() && buf[i] != 10 {
        lemma_line_end_scan(buf, i + 1);
    }
}

/// The step of the tokenizer state the tokenizer is in: the top of a file or of a
/// structure, a function header, a structure header, an implementation header, a string,
/// code, or a list of generics. `None` in any other state.
#[verifier::opaque]
pub open spec fn dispatch_step(buf: Seq<u8>, s: LexState) -> Option<(LexState, Token)> {
    if s.state == TokenizerState::TOP_ELEMENT || s.state == TokenizerState::TOP_ELEMENT_TO_STRUCT {
        top_step(buf, s)
    } else if s.state == TokenizerState::FUNCTION || s.state == TokenizerState::FUNCTION_TO_STRUCT_TOP {
        func_step(buf, s)
    } else if s.state == TokenizerState::STRUCTURE {
        struct_step(buf, s)
    } else if s.state == TokenizerState::IMPLEMENTATION {
        impl_step(buf, s)
    } else if s.state == TokenizerState::STRING || s.state == TokenizerState::STRING_TO_CODE_STRUCT_TOP {
        string_step(buf, s)
    } else if s.state == TokenizerState::CODE || s.state == TokenizerState::CODE_TO_STRUCT_TOP {
        code_step(buf, s)
    } else if s.state == TokenizerState::GENERIC_TO_IMPL || s.state == TokenizerState::GENERIC_TO_FUNC
        || s.state == TokenizerState::GENERIC_TO_STRUCT || s.state
        == TokenizerState::GENERIC_TO_FUNC_TO_STRUCT_TOP {
        generic_step(buf, s)
    } else {
        None
    }
}

/// The state after the `*/` that closes a block comment, the index moving one byte at a
/// time until it comes next. `None` where it never does (the scan runs past the buffer).
pub open spec fn block_comment_end(buf: Seq<u8>, s: LexState) -> Option<LexState>
    decreases buf.len() + 1 - s.index,
{
    if s.index > buf.len() {
        None
    } else {
        match match_seq(buf, s, "*/".spec_bytes()) {
            Some(q) => Some(q),
            None => block_comment_end(buf, at(s, s.index + 1)),
        }
    }
}

/// What `next` does: a comment (`//` to the end of the line, `/*` to the next `*/`) in any
/// state, or else the step of the current state; the token becomes the last token. `None`
/// where the step cannot be taken: a read out of bounds, an unknown state, a token that
/// cannot come in that state, or a depth out of range.
pub open spec fn next_step(buf: Seq<u8>, s: LexState) -> Option<(LexState, Token)> {
    let found = if s.index > buf.len() {
        None
    } else {
        match match_seq(buf, s, "//".spec_bytes()) {
            Some(q) => match to_line_end(buf, q, TokenTypes::Comment) {
                None => None,
                Some((q2, _)) => Some((q2, mk(q2, TokenTypes::Comment))),
            },
            None => match match_seq(buf, s, "/*".spec_bytes()) {
                Some(q) => match block_comment_end(buf, q) {
                    None => None,
                    Some(q2) => Some((q2, mk(q2, TokenTypes::Comment))),
                },
                None => dispatch_step(buf, s),
            },
        }
    };
    match found {
        None => None,
        Some((q, t)) => Some((LexState { last: t, ..q }, t)),
    }
}

// Facts about the scans.

pub proof fn lemma_skip_ws(buf: Seq<u8>, s: LexState)
    requires
        lex_wf(buf, s),
        s.index <= buf.len(),
    ensures
        lex_wf(buf, skip_ws(buf, s)),
        s.index <= skip_ws(buf, s).index <= buf.len(),
        skip_ws(buf, s).index < buf.len() ==> !is_ws(buf[skip_ws(buf, s).index]),
        skip_ws(buf, s).line_index <= skip_ws(buf, s).index,
        skip_ws(buf, s) == (LexState {
            index: skip_ws(buf, s).index,
            line: skip_ws(buf, s).line,
            line_index: skip_ws(buf, s).line_index,
            ..s
        }),
    decreases buf.len() - s.index,
{
    if 0 <= s.index < buf.len() && is_ws(buf[s.index]) {
        lemma_skip_ws(buf, consume(buf, s));
    }
}

pub proof fn lemma_included(buf: Seq<u8>, s: LexState)
    requires
        lex_wf(buf, s),
        s.index <= buf.len(),
    ensures
        lex_wf(buf, included(buf, s).0),
        s.index <= included(buf, s).0.index <= buf.len(),
        included(buf, s).1 is Ok ==> included(buf, s).0.index >= 1 && included(buf, s).0.line_index
            < included(buf, s).0.index && s.index < included(buf, s).0.index,
        included(buf, s).0 == (LexState {
            index: included(buf, s).0.index,
            line: included(buf, s).0.line,
            line_index: included(buf, s).0.line_index,
            ..s
        }),
{
    lemma_skip_ws(buf, s);
}

pub proof fn lemma_match_seq(buf: Seq<u8>, s: LexState, input: Seq<u8>)
    requires
        lex_wf(buf, s),
        s.index <= buf.len(),
    ensures
        match_seq(buf, s, input) matches Some(q) ==> {
            &&& lex_wf(buf, q)
            &&& s.index <= q.index <= buf.len()
            &&& q == (LexState { index: q.index, line: q.line, line_index: q.line_index, ..s })
        },
    decreases input.len(),
{
    if input.len() > 0 {
        lemma_included(buf, s);
        lemma_match_seq(buf, included(buf, s).0, input.drop_first());
    }
}

/// After a match of a non-empty text that does not end in a space, the last byte matched
/// is the one before the index, on the current line.
pub proof fn lemma_match_last(buf: Seq<u8>, s: LexState, input: Seq<u8>)
    requires
        lex_wf(buf, s),
        s.index <= buf.len(),
        input.len() > 0,
        input.last() != 32,
    ensures
        match_seq(buf, s, input) matches Some(q) ==> {
            &&& 1 <= q.index <= buf.len()
            &&& buf[q.index - 1] == input.last()
            &&& q.line_index < q.index
        },
    decreases input.len(),
{
    lemma_included(buf, s);
    if input.len() > 1 {
        assert(input.drop_first().last() == input.last());
        lemma_match_last(buf, included(buf, s).0, input.drop_first());
    } else {
        lemma_skip_ws(buf, s);
        assert(input.drop_first().len() == 0);
    }
}

pub proof fn lemma_scan_to_either(buf: Seq<u8>, i: int, first: u8, second: u8)
    requires
        0 <= i <= buf.len(),
    ensures
        i <= scan_to_either(buf, i, first, second) <= buf.len(),
    decreases buf.len() - i,
{
    if 0 <= i < buf.len() && buf[i] != first && buf[i] != second {
        lemma_scan_to_either(buf, i + 1, first, second);
    }
}

pub proof fn lemma_line_end_pos(buf: Seq<u8>, i: int)
    requires
        0 <= i <= buf.len(),
    ensures
        i <= line_end_pos(buf, i) <= buf.len(),
    decreases buf.len() - i,
{
    if 0 <= i < buf.len() && buf[i] != 10 {
        lemma_line_end_pos(buf, i + 1);
    }
}

/// The tokens read from state `s` on in at most `fuel` steps, up to and with the first
/// end-of-file token; `None` where a step cannot be taken or the steps run out before it.
pub open spec fn lex_tokens(buf: Seq<u8>, s: LexState, fuel: nat) -> Option<Seq<Token>>
    decreases fuel,
{
    if fuel == 0 {
        None
    } else {
        match next_step(buf, s) {
            None => None,
            Some((q, t)) => if t.token_type == TokenTypes::EOF {
                Some(seq![t])
            } else {
                match lex_tokens(buf, q, (fuel - 1) as nat) {
                    Some(rest) => Some(seq![t] + rest),
                    None => None,
                }
            },
        }
    }
}

/// Law: once the tokens of a buffer are read within some number of steps, more steps read
/// the same tokens.
pub proof fn law_lex_fuel(buf: Seq<u8>, s: LexState, n: nat, m: nat)
    requires
        n <= m,
        lex_tokens(buf, s, n) is Some,
    ensures
        lex_tokens(buf, s, m) == lex_tokens(buf, s, n),
    decreases n,
{
    if let Some((q, t)) = next_step(buf, s) {
        if t.token_type != TokenTypes::EOF {
            law_lex_fuel(buf, q, (n - 1) as nat, (m - 1) as nat);
        }
    }
}

/// The position `serialize` saves: the state, the index, the line and the last token.
pub open spec fn saved_state(t: Tokenizer) -> ParserState {
    ParserState { state: t.state, index: t.index, line_index: t.line_index, line: t.line, last: t.last }
}

/// The tokenizer `load` leaves: `t` moved back to the saved position; the depths, the
/// buffer and the code data stay as they are.
pub open spec fn restored<'a>(t: Tokenizer<'a>, saved: ParserState) -> Tokenizer<'a> {
    Tokenizer {
        state: saved.state,
        index: saved.index,
        line_index: saved.line_index,
        line: saved.line,
        last: saved.last,
        ..t
    }
}

/// Law: loading a saved position gives back the tokenizer as it was when it was saved,
/// provided only the position changed in between (the bracket and generic depths and the
/// code data are not part of what is saved).
pub proof fn law_load_serialize<'a>(at_save: Tokenizer<'a>, at_load: Tokenizer<'a>)
    requires
        at_load.buffer == at_save.buffer,
        at_load.len == at_save.len,
        at_load.bracket_depth == at_save.bracket_depth,
        at_load.generic_depth == at_save.generic_depth,
        at_load.code_data == at_save.code_data,
    ensures
        restored(at_load, saved_state(at_save)) == at_save,
{
}

impl<'a> Tokenizer<'a> {
    /// Creates a tokenizer at the start of `buffer`, at the top of a file.
    pub fn new(buffer: &'a [u8]) -> (t: Self)
        requires
            buffer@.len() <= MAX_SOURCE_LEN,
        ensures
            t.wf(),
            t.buffer@ == buffer@,
            t@ == initial_lex_state(),
    {
        Tokenizer {
            state: TokenizerState::TOP_ELEMENT,
            bracket_depth: 0,
            generic_depth: 1,
            index: 0,
            line: 1,
            line_index: 0,
            last: Token::new(TokenTypes::Start, None, (1, 0), 0, (1, 0), 0),
            len: buffer.len(),
            buffer,
            code_data: None,
        }
    }

    /// Saves the tokenizer to a ParserState to be loaded later
    pub fn serialize(&mut self) -> (saved: ParserState)
        ensures
            *final(self) == *old(self),
            saved == saved_state(*old(self)),
    {
        ParserState {
            state: self.state,
            index: self.index,
            line_index: self.line_index,
            line: self.line,
            last: self.last,
        }
    }

    /// Loads the state from a ParserState
    pub fn load(&mut self, state: &ParserState)
        ensures
            *final(self) == restored(*old(self), *state),
    {
        self.state = state.state;
        self.index = state.index;
        self.line_index = state.line_index;
        self.line = state.line;
        self.last = state.last;
    }

    /// The next byte that is not whitespace, or the EOF token at the end of the buffer.
    /// Newlines passed over are counted.
    pub fn next_included(&mut self) -> (r: Result<u8, Token>)
        requires
            old(self).wf(),
            old(self).index <= old(self).len,
        ensures
            final(self).wf(),
            final(self).same_source(*old(self)),
            (final(self)@, r) == included(old(self).buffer@, old(self)@),
            final(self).last == old(self).last,
            r matches Err(t) ==> follows(t, old(self).last),
    {
        let ghost buf = self.buffer@;
        let ghost start = self@;
        proof {
            lemma_skip_ws(buf, start);
        }
        loop
            invariant
                self.wf(),
                self.same_source(*old(self)),
                buf == self.buffer@,
                self.index <= self.len,
                skip_ws(buf, self@) == skip_ws(buf, start),
                start == old(self)@,
                self@ == (LexState { index: self@.index, line: self@.line, line_index: self@.line_index, ..start }),
            decreases self.len - self.index,
        {
            let ghost pre = self@;
            proof {
                lemma_skip_ws(buf, self@);
            }
            if self.index == self.len {
                return Err(
                    Token::new(
                        TokenTypes::EOF,
                        None,
                        self.last.end,
                        self.last.end_offset,
                        (self.line, self.index as u32 - self.line_index),
                        self.index,
                    ),
                );
            }
            let character = self.buffer[self.index];
            self.index += 1;
            if character == 10 {
                self.line_index = self.index as u32;
                self.line += 1;
            } else if character == 32 || character == 13 || character == 9 {
            } else {
                return Ok(character);
            }
        }
    }

    /// Matches a string of characters to the current tokenizer index. Ignores whitespace.
    /// Where it does not match, the tokenizer is left as it was.
    pub fn matches(&mut self, input: &str) -> (r: bool)
        requires
            old(self).wf(),
            old(self).index <= old(self).len,
        ensures
            final(self).wf(),
            final(self).same_source(*old(self)),
            match match_seq(old(self).buffer@, old(self)@, input.spec_bytes()) {
                Some(q) => r && final(self)@ == q,
                None => !r && *final(self) == *old(self),
            },
            final(self).last == old(self).last,
    {
        let ghost buf = self.buffer@;
        let saved = self.serialize();
        let bytes = input.as_bytes();
        let mut i: usize = 0;
        proof {
            assert(bytes@.skip(0) =~= bytes@);
        }
        while i < bytes.len()
            invariant
                self.wf(),
                self.same_source(*old(self)),
                buf == self.buffer@,
                self.index <= self.len,
                i <= bytes@.len(),
                bytes@ == input.spec_bytes(),
                match_seq(buf, old(self)@, bytes@) == match_seq(buf, self@, bytes@.skip(i as int)),
                old(self).wf(),
                self@ == (LexState { index: self@.index, line: self@.line, line_index: self@.line_index, ..old(self)@ }),
                saved == saved_state(*old(self)),
            decreases bytes@.len() - i,
        {
            let ghost pre = self@;
            proof {
                lemma_included(buf, self@);
                assert(bytes@.skip(i as int).drop_first() =~= bytes@.skip(i + 1));
                assert(bytes@.skip(i as int)[0] == bytes@[i as int]);
            }
            let found = match self.next_included() {
                Ok(c) => c,
                Err(_) => 32u8,
            };
            if found != bytes[i] {
                self.load(&saved);
                return false;
            }
            i += 1;
        }
        true
    }

    /// `matches_word`, with `None` where the match reaches the end of the buffer.
    pub(crate) fn word_match(&mut self, input: &str) -> (r: Option<bool>)
        requires
            old(self).wf(),
            old(self).index <= old(self).len,
        ensures
            final(self).wf(),
            final(self).same_source(*old(self)),
            match match_word(old(self).buffer@, old(self)@, input.spec_bytes()) {
                None => r is None,
                Some(None) => r == Some(false) && *final(self) == *old(self),
                Some(Some(q)) => r == Some(true) && final(self)@ == q,
            },
            final(self).last == old(self).last,
    {
        let ghost buf = self.buffer@;
        let saved = self.serialize();
        if !self.matches(input) {
            return Some(false);
        }
        proof {
            lemma_match_seq(buf, old(self)@, input.spec_bytes());
        }
        if self.index >= self.len {
            return None;
        }
        if is_ascii_alphabetic(self.buffer[self.index]) {
            self.load(&saved);
            Some(false)
        } else {
            Some(true)
        }
    }

    /// Matches a word. Unlike matches, this requires it to be word, which means it must not
    /// be followed by a letter. Where it does not match, the tokenizer is left as it was.
    pub fn matches_word(&mut self, input: &str) -> (r: bool)
        requires
            old(self).wf(),
            old(self).index <= old(self).len,
            match_word(old(self).buffer@, old(self)@, input.spec_bytes()) is Some,
        ensures
            final(self).wf(),
            final(self).same_source(*old(self)),
            match match_word(old(self).buffer@, old(self)@, input.spec_bytes()).unwrap() {
                None => !r && *final(self) == *old(self),
                Some(q) => r && final(self)@ == q,
            },
            final(self).last == old(self).last,
    {
        self.word_match(input).unwrap()
    }

    /// Parse ahead to the first occurrence of whichever of two bytes occurs first
    /// (or the end of the buffer), giving a token of type `token` up to there.
    pub fn parse_to_first(&mut self, token: TokenTypes, first: u8, second: u8) -> (t: Token)
        requires
            old(self).wf(),
            old(self).index <= old(self).len,
        ensures
            final(self).wf(),
            final(self).same_source(*old(self)),
            final(self)@ == at(old(self)@, scan_to_either(old(self).buffer@, old(self)@.index, first, second)),
            t == mk(final(self)@, token),
            final(self).last == old(self).last,
            follows(t, old(self).last),
    {
        let ghost buf = self.buffer@;
        proof {
            lemma_scan_to_either(buf, self.index as int, first, second);
        }
        while self.index != self.len && self.buffer[self.index] != first && self.buffer[self.index] != second
            invariant
                self.wf(),
                self.same_source(*old(self)),
                buf == self.buffer@,
                self.index <= self.len,
                old(self).index <= self.index,
                scan_to_either(buf, self.index as int, first, second) == scan_to_either(buf, old(self).index as int, first, second),
                self@ == at(old(self)@, self@.index),
            decreases self.len - self.index,
        {
            self.index += 1;
        }
        self.make_token(token)
    }

    /// Parse ahead to the end of the current line
    pub fn parse_to_line_end(&mut self, types: TokenTypes) -> (t: Token)
        requires
            old(self).wf(),
            old(self).index <= old(self).len,
        ensures
            final(self).wf(),
            final(self).same_source(*old(self)),
            to_line_end(old(self).buffer@, old(self)@, types) == Some((final(self)@, t)),
            final(self).last == old(self).last,
            follows(t, old(self).last),
    {
        let ghost buf = self.buffer@;
        if self.index == self.len {
            return self.make_token(TokenTypes::EOF);
        }
        proof {
            lemma_line_end_pos(buf, self.index + 1);
        }
        self.index += 1;
        while self.index != self.len && self.buffer[self.index] != 10
            invariant
                self.wf(),
                self.same_source(*old(self)),
                buf == self.buffer@,
                old(self).index < self.index <= self.len,
                line_end_pos(buf, self.index as int) == line_end_pos(buf, old(self).index + 1),
                self@ == at(old(self)@, self@.index),
            decreases self.len - self.index,
        {
            self.index += 1;
        }
        self.make_token(types)
    }

    /// Creates an InvalidCharacters token running to the end of the line.
    pub fn handle_invalid(&mut self) -> (t: Token)
        requires
            old(self).wf(),
            old(self).index <= old(self).len,
        ensures
            final(self).wf(),
            final(self).same_source(*old(self)),
            to_line_end(old(self).buffer@, old(self)@, TokenTypes::InvalidCharacters) == Some((final(self)@, t)),
            final(self).last == old(self).last,
            follows(t, old(self).last),
    {
        self.parse_to_line_end(TokenTypes::InvalidCharacters)
    }

    /// The step of the current state, with `None` where it cannot be taken.
    fn dispatch_opt(&mut self) -> (r: Option<Token>)
        requires
            old(self).wf(),
        ensures
            final(self).same_source(*old(self)),
            match dispatch_step(old(self).buffer@, old(self)@) {
                Some((s, t)) => r == Some(t) && final(self)@ == s && final(self).wf(),
                None => r is None,
            },
            r matches Some(t) ==> follows(t, old(self).last) && final(self).last == old(self).last,
    {
        reveal(dispatch_step);
        let state = self.state;
        if state == TokenizerState::TOP_ELEMENT || state == TokenizerState::TOP_ELEMENT_TO_STRUCT {
            top_opt(self)
        } else if state == TokenizerState::FUNCTION || state == TokenizerState::FUNCTION_TO_STRUCT_TOP {
            func_opt(self)
        } else if state == TokenizerState::STRUCTURE {
            struct_opt(self)
        } else if state == TokenizerState::IMPLEMENTATION {
            impl_opt(self)
        } else if state == TokenizerState::STRING || state == TokenizerState::STRING_TO_CODE_STRUCT_TOP {
            string_opt(self)
        } else if state == TokenizerState::CODE || state == TokenizerState::CODE_TO_STRUCT_TOP {
            code_opt(self)
        } else if state == TokenizerState::GENERIC_TO_IMPL || state == TokenizerState::GENERIC_TO_FUNC
            || state == TokenizerState::GENERIC_TO_STRUCT || state
            == TokenizerState::GENERIC_TO_FUNC_TO_STRUCT_TOP {
            generic_opt(self)
        } else {
            None
        }
    }

    /// Moves the index one byte at a time until `*/` comes next and steps over it; `false`
    /// where the index runs past the buffer first.
    fn skip_block_comment(&mut self) -> (r: bool)
        requires
            old(self).wf(),
            old(self).index <= old(self).len,
        ensures
            final(self).same_source(*old(self)),
            match block_comment_end(old(self).buffer@, old(self)@) {
                Some(q) => r && final(self)@ == q && final(self).wf(),
                None => !r,
            },
            final(self).last == old(self).last,
    {
        let ghost buf = self.buffer@;
        loop
            invariant
                self.wf(),
                self.same_source(*old(self)),
                buf == self.buffer@,
                self.index <= self.len + 1,
                block_comment_end(buf, old(self)@) == block_comment_end(buf, self@),
                self.last == old(self).last,
            decreases self.len + 1 - self.index,
        {
            if self.index > self.len {
                return false;
            }
            proof {
                lemma_match_seq(buf, self@, "*/".spec_bytes());
            }
            if self.matches("*/") {
                return true;
            }
            self.index += 1;
        }
    }

    /// `next`, with `None` where the step cannot be taken.
    fn next_opt(&mut self) -> (r: Option<Token>)
        requires
            old(self).wf(),
        ensures
            final(self).same_source(*old(self)),
            match next_step(old(self).buffer@, old(self)@) {
                Some((s, t)) => r == Some(t) && final(self)@ == s && final(self).wf(),
                None => r is None,
            },
            r matches Some(t) ==> follows(t, old(self).last),
    {
        let ghost buf = self.buffer@;
        if self.index > self.len {
            return None;
        }
        proof {
            lemma_match_seq(buf, self@, "//".spec_bytes());
            lemma_match_seq(buf, self@, "/*".spec_bytes());
        }
        let found = if self.matches("//") {
            let _ = self.parse_to_line_end(TokenTypes::Comment);
            self.make_token(TokenTypes::Comment)
        } else if self.matches("/*") {
            if !self.skip_block_comment() {
                return None;
            }
            self.make_token(TokenTypes::Comment)
        } else {
            match self.dispatch_opt() {
                Some(token) => token,
                None => {
                    return None;
                },
            }
        };
        self.last = found;
        Some(found)
    }

    /// Reads the next token: a comment in any state, or the token of the current state
    /// (see `next_step`). The token starts where the last token ended and becomes the last
    /// token, and the tokenizer stays well formed.
    pub fn next(&mut self) -> (t: Token)
        requires
            old(self).wf(),
            next_step(old(self).buffer@, old(self)@) is Some,
        ensures
            final(self).wf(),
            final(self).same_source(*old(self)),
            next_step(old(self).buffer@, old(self)@) == Some((final(self)@, t)),
            final(self).last == t,
            follows(t, old(self).last),
    {
        self.next_opt().unwrap()
    }

    /// Reads the next token as `next` does, or gives `None`, leaving the tokenizer as it
    /// was, where the step cannot be taken.
    pub fn try_next(&mut self) -> (r: Option<Token>)
        requires
            old(self).wf(),
        ensures
            final(self).wf(),
            final(self).same_source(*old(self)),
            match next_step(old(self).buffer@, old(self)@) {
                Some((s, t)) => r == Some(t) && final(self)@ == s,
                None => r is None && *final(self) == *old(self),
            },
            r matches Some(t) ==> follows(t, old(self).last),
    {
        let mut copy = *self;
        match copy.next_opt() {
            Some(token) => {
                *self = copy;
                Some(token)
            },
            None => None,
        }
    }

    /// Creates a token between the last token and the current position
    pub fn make_token(&self, token_type: TokenTypes) -> (t: Token)
        requires
            self.line_index <= self.index,
            self.index <= MAX_SOURCE_LEN + 3,
        ensures
            t == mk(self@, token_type),
            follows(t, self.last),
    {
        Token::new(
            token_type,
            self.code_data,
            self.last.end,
            self.last.end_offset,
            (self.line, self.index as u32 - self.line_index),
            self.index,
        )
    }
}

/// Reads all the tokens of a source, up to and with the end-of-file token; `None` where a
/// step of the tokenizer cannot be taken (see `lex_tokens`, with as many steps as a `usize`
/// counts). The tokens cover the source from its start, each starting where the one before
/// it ended, and only the last is the end-of-file token.
pub fn tokenize(buffer: &[u8]) -> (r: Option<Vec<Token>>)
    requires
        buffer@.len() <= MAX_SOURCE_LEN,
    ensures
        match r {
            Some(tokens) => lex_tokens(buffer@, initial_lex_state(), usize::MAX as nat) == Some(tokens@),
            None => lex_tokens(buffer@, initial_lex_state(), usize::MAX as nat) is None,
        },
        r matches Some(tokens) ==> {
            &&& tokens@.len() > 0
            &&& tokens@[0].start_offset == 0 && tokens@[0].start == (1u32, 0u32)
            &&& forall|i: int| 0 <= i < tokens@.len() - 1 ==> follows(#[trigger] tokens@[i + 1], tokens@[i])
            &&& tokens@.last().token_type == TokenTypes::EOF
            &&& forall|i: int| 0 <= i < tokens@.len() - 1 ==> (#[trigger] tokens@[i]).token_type != TokenTypes::EOF
        },
{
    let ghost buf = buffer@;
    let ghost all = lex_tokens(buf, initial_lex_state(), usize::MAX as nat);
    let mut tokenizer = Tokenizer::new(buffer);
    let mut tokens: Vec<Token> = Vec::new();
    let mut fuel: usize = usize::MAX;
    while fuel > 0
        invariant
            tokenizer.wf(),
            tokenizer.buffer@ == buf,
            buf == buffer@,
            all == lex_tokens(buf, initial_lex_state(), usize::MAX as nat),
            all == match lex_tokens(buf, tokenizer@, fuel as nat) {
                Some(rest) => Some(tokens@ + rest),
                None => None::<Seq<Token>>,
            },
            tokens@.len() == 0 ==> tokenizer.last == initial_lex_state().last,
            tokens@.len() > 0 ==> {
                &&& tokens@[0].start_offset == 0 && tokens@[0].start == (1u32, 0u32)
                &&& tokenizer.last == tokens@.last()
            },
            forall|i: int| 0 <= i < tokens@.len() - 1 ==> follows(#[trigger] tokens@[i + 1], tokens@[i]),
            forall|i: int| 0 <= i < tokens@.len() ==> (#[trigger] tokens@[i]).token_type != TokenTypes::EOF,
        decreases fuel,
    {
        let ghost before = tokenizer@;
        match tokenizer.try_next() {
            None => {
                proof {
                    assert(next_step(buf, before) is None);
                    assert(lex_tokens(buf, before, fuel as nat) is None);
                }
                return None;
            },
            Some(token) => {
                proof {
                    assert(next_step(buf, before) == Some((tokenizer@, token)));
                }
                let ghost earlier = tokens@;
                tokens.push(token);
                if token.token_type == TokenTypes::EOF {
                    proof {
                        assert(lex_tokens(buf, before, fuel as nat) == Some(seq![token]));
                        assert(earlier + seq![token] =~= tokens@);
                    }
                    return Some(tokens);
                }
                proof {
                    match lex_tokens(buf, tokenizer@, (fuel - 1) as nat) {
                        Some(rest) => {
                            assert(earlier + (seq![token] + rest) =~= tokens@ + rest);
                        },
                        None => {},
                    }
                }
                fuel -= 1;
            },
        }
    }
    None
}

/// Whether a byte is an ASCII letter.
pub fn is_ascii_alphabetic(c: u8) -> (r: bool)
    ensures
        r == is_ascii_alpha(c),
{
    (65 <= c && c <= 90) || (97 <= c && c <= 122)
}

/// Whether a byte is an ASCII digit.
pub fn is_digit(c: u8) -> (r: bool)
    ensures
        r == is_ascii_digit(c),
{
    48 <= c && c <= 57
}

} // verus!
