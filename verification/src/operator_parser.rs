//! Reading a user-defined operator between effects.
//!
//! The operator parser alternates with the code parser, which reads the operator's
//! operands: each step here takes what the last read gave and says what to read next.
use vstd::prelude::*;
use vstd::string::StringExecFns;

use crate::program::ParseState;
use crate::tokens::{text_range, Token, TokenTypes};
use crate::top_parser::{token_text, ParserUtils};

verus! {

/// Whether a token is one of an operator's symbols: before the right-hand side (`leading`)
/// an operator, an equals sign or a period; after a missing right-hand side an operator.
pub open spec fn is_symbol(t: TokenTypes, leading: bool) -> bool {
    if leading {
        t == TokenTypes::Operator || t == TokenTypes::Equals || t == TokenTypes::Period
    } else {
        t == TokenTypes::Operator
    }
}

/// The run of symbol tokens from token `i` on: where it ends and the text of its tokens.
pub open spec fn symbol_run(tokens: Seq<Token>, buf: Seq<u8>, i: int, leading: bool) -> (int, Seq<char>)
    decreases tokens.len() - i,
{
    if 0 <= i < tokens.len() && is_symbol(tokens[i].token_type, leading) {
        let rest = symbol_run(tokens, buf, i + 1, leading);
        (rest.0, token_text(buf, tokens[i]) + rest.1)
    } else {
        (i, Seq::empty())
    }
}

/// Every token of the run from `i` has a text, and a run after a missing right-hand side
/// ends before the tokens do.
pub open spec fn symbols_readable(tokens: Seq<Token>, buf: Seq<u8>, i: int, leading: bool) -> bool
    decreases tokens.len() - i,
{
    if 0 <= i < tokens.len() && is_symbol(tokens[i].token_type, leading) {
        text_range(buf, tokens[i]) is Some && symbols_readable(tokens, buf, i + 1, leading)
    } else {
        leading || 0 <= i < tokens.len()
    }
}

/// Whether a token closes a line, block, argument or parenthesis.
pub open spec fn is_closing(t: TokenTypes) -> bool {
    t == TokenTypes::BlockStart || t == TokenTypes::LineEnd || t == TokenTypes::BlockEnd || t
        == TokenTypes::ArgumentEnd || t == TokenTypes::ParenClose
}

/// The index moved back over the closing tokens just before index `i`.
pub open spec fn trimmed(tokens: Seq<Token>, i: int) -> int
    decreases i,
{
    if 1 <= i <= tokens.len() && is_closing(tokens[i - 1].token_type) {
        trimmed(tokens, i - 1)
    } else {
        i
    }
}

/// Moving back over closing tokens from `i` always leaves a token before the index.
pub open spec fn trim_safe(tokens: Seq<Token>, i: int) -> bool
    decreases i,
{
    &&& 1 <= i <= tokens.len()
    &&& is_closing(tokens[i - 1].token_type) ==> trim_safe(tokens, i - 1)
}

/// The state an operator's right-hand side is read in: still in a control variable, or in
/// an operator.
pub open spec fn right_state(state: ParseState) -> ParseState {
    match state {
        ParseState::ControlVariable | ParseState::ControlOperator => ParseState::ControlOperator,
        _ => ParseState::InOperator,
    }
}

/// The tokens cut back to `kept` of them (left as they are where there are fewer).
pub open spec fn kept_tokens(tokens: Seq<Token>, kept: int) -> Seq<Token> {
    if kept <= tokens.len() {
        tokens.subrange(0, kept)
    } else {
        tokens
    }
}

/// The state the operator parser resumes in.
#[derive(Clone, Copy, Debug, PartialEq, Eq, Structural)]
pub enum OperatorState {
    /// Starting just after the operator's first token: `has_left` whether an effect
    /// stands on its left, `state` the state the operator is read in
    Start { has_left: bool, state: ParseState },
    /// The right-hand side was read: `found` whether it gave an effect, `nop` whether that
    /// effect does nothing
    RightRead { found: bool, nop: bool },
    /// Another element of a list was read after an argument end: `found` whether it gave
    /// an effect, `nop` whether that effect does nothing, `right_nop` whether the
    /// right-hand side so far does nothing
    ElementRead { found: bool, nop: bool, right_nop: bool },
}

/// What the operator parser asks for next.
#[derive(Clone, Copy, Debug, PartialEq, Eq, Structural)]
pub enum OperatorEvent {
    /// Read the right-hand side in this state, then resume with `RightRead`
    ReadRight(ParseState),
    /// Read the next element of a list in operator state, then resume with `ElementRead`
    /// (a found element that does something joins the right-hand side into a list)
    ReadElement,
    /// The operator is read; `with_right` whether the right-hand side is one of its effects
    Done { with_right: bool },
}

/// The operator being read: its text so far, and the token index and number of tokens to
/// go back to where what was read after them is dropped.
pub struct OperatorParse {
    /// The operation's text, `{}` standing for each effect
    pub operation: String,
    /// The token index to go back to
    pub index: usize,
    /// The number of tokens to keep when going back
    pub kept: usize,
}

/// The operator being read as values: its text, the index and the number of tokens kept.
pub type OperatorModel = (Seq<char>, int, int);

/// The text standing for an effect in an operation.
pub open spec fn placeholder() -> Seq<char> {
    seq!['{', '}']
}

/// How reading an operator ends: where the right-hand side does nothing, back to where it
/// began, without it; else with it, a placeholder added and the index moved back over
/// closing tokens.
pub open spec fn operator_finish(tokens: Seq<Token>, index: int, op: OperatorModel, nop: bool) -> (
    Seq<Token>,
    int,
    OperatorModel,
    OperatorEvent,
) {
    if nop {
        (kept_tokens(tokens, op.2), op.1, op, OperatorEvent::Done { with_right: false })
    } else {
        (tokens, trimmed(tokens, index), (op.0 + placeholder(), op.1, op.2), OperatorEvent::Done { with_right: true })
    }
}

/// After an effect of the right-hand side was found: another element follows an argument
/// end (remembering where it starts), else reading ends.
pub open spec fn operator_continue(tokens: Seq<Token>, index: int, op: OperatorModel, nop: bool) -> (
    Seq<Token>,
    int,
    OperatorModel,
    OperatorEvent,
) {
    if tokens[index - 1].token_type == TokenTypes::ArgumentEnd {
        (tokens, index, (op.0, index, tokens.len() as int), OperatorEvent::ReadElement)
    } else {
        operator_finish(tokens, index, op, nop)
    }
}

/// One step of reading an operator: the tokens, the index and the operator afterwards, and
/// what to read next.
/// - At the start the index steps back to the operator's first token and reads its
///   symbols (an operator, equals sign or period each), after a placeholder where an effect
///   stands on the left; the index and number of tokens are remembered and the right-hand
///   side is asked for.
/// - Where the right-hand side gave nothing, the tokens and index go back, the operator
///   symbols there are added, and the index moves back over closing tokens.
pub open spec fn operator_next(
    tokens: Seq<Token>,
    buf: Seq<u8>,
    index: int,
    op: OperatorModel,
    state: OperatorState,
) -> (Seq<Token>, int, OperatorModel, OperatorEvent) {
    match state {
        OperatorState::Start { has_left, state } => {
            let prefix = if has_left {
                placeholder()
            } else {
                Seq::empty()
            };
            let (end, text) = symbol_run(tokens, buf, index - 1, true);
            (tokens, end, (prefix + text, end, tokens.len() as int), OperatorEvent::ReadRight(right_state(state)))
        },
        OperatorState::RightRead { found, nop } => if found {
            operator_continue(tokens, index, op, nop)
        } else {
            let back = kept_tokens(tokens, op.2);
            let (end, text) = symbol_run(back, buf, op.1, false);
            (back, trimmed(back, end), (op.0 + text, op.1, op.2), OperatorEvent::Done { with_right: false })
        },
        OperatorState::ElementRead { found, nop, right_nop } => if found && !nop {
            operator_continue(tokens, index, op, false)
        } else {
            operator_finish(tokens, index, op, right_nop)
        },
    }
}

/// Where a step can be taken without running off the tokens: at the start a token before
/// the index and readable symbols; after a found right-hand side or element a token before
/// the index, and one before any index the reading moves back to; after a missing one,
/// readable symbols from where it goes back to, and a token before that.
pub open spec fn operator_safe(
    tokens: Seq<Token>,
    buf: Seq<u8>,
    index: int,
    op: OperatorModel,
    state: OperatorState,
) -> bool {
    match state {
        OperatorState::Start { .. } => 1 <= index && symbols_readable(tokens, buf, index - 1, true),
        OperatorState::RightRead { found, nop } => if found {
            &&& 1 <= index <= tokens.len()
            &&& (tokens[index - 1].token_type != TokenTypes::ArgumentEnd && !nop) ==> trim_safe(tokens, index)
        } else {
            let back = kept_tokens(tokens, op.2);
            &&& symbols_readable(back, buf, op.1, false)
            &&& trim_safe(back, symbol_run(back, buf, op.1, false).0)
        },
        OperatorState::ElementRead { found, nop, right_nop } => if found && !nop {
            &&& 1 <= index <= tokens.len()
            &&& tokens[index - 1].token_type != TokenTypes::ArgumentEnd ==> trim_safe(tokens, index)
        } else {
            !right_nop ==> trim_safe(tokens, index)
        },
    }
}

/// The operator being read as values.
pub open spec fn operator_model(op: OperatorParse) -> OperatorModel {
    (op.operation@, op.index as int, op.kept as int)
}

proof fn lemma_symbol_step(tokens: Seq<Token>, buf: Seq<u8>, i: int, leading: bool)
    requires
        0 <= i < tokens.len(),
        is_symbol(tokens[i].token_type, leading),
    ensures
        symbol_run(tokens, buf, i, leading) == (
            symbol_run(tokens, buf, i + 1, leading).0,
            token_text(buf, tokens[i]) + symbol_run(tokens, buf, i + 1, leading).1,
        ),
{
}

/// Reads the symbol tokens from the index on, adding their text to the operation.
fn read_symbols(parser_utils: &mut ParserUtils, operation: &mut String, leading: bool)
    requires
        symbols_readable(old(parser_utils).tokens@, old(parser_utils).buffer@, old(parser_utils).index as int, leading),
    ensures
        final(parser_utils).index == symbol_run(
            old(parser_utils).tokens@,
            old(parser_utils).buffer@,
            old(parser_utils).index as int,
            leading,
        ).0,
        final(operation)@ == old(operation)@ + symbol_run(
            old(parser_utils).tokens@,
            old(parser_utils).buffer@,
            old(parser_utils).index as int,
            leading,
        ).1,
        final(parser_utils).tokens == old(parser_utils).tokens,
        final(parser_utils).buffer == old(parser_utils).buffer,
        final(parser_utils).file == old(parser_utils).file,
        final(parser_utils).file_name == old(parser_utils).file_name,
        final(parser_utils).imports == old(parser_utils).imports,
{
    let ghost tokens = parser_utils.tokens@;
    let ghost buf = parser_utils.buffer@;
    let ghost run = symbol_run(tokens, buf, parser_utils.index as int, leading);
    let ghost start = operation@;
    loop
        invariant
            parser_utils.tokens == old(parser_utils).tokens,
            parser_utils.buffer == old(parser_utils).buffer,
            parser_utils.file == old(parser_utils).file,
            parser_utils.file_name == old(parser_utils).file_name,
            parser_utils.imports == old(parser_utils).imports,
            tokens == parser_utils.tokens@,
            buf == parser_utils.buffer@,
            symbols_readable(tokens, buf, parser_utils.index as int, leading),
            symbol_run(tokens, buf, parser_utils.index as int, leading).0 == run.0,
            start + run.1 == operation@ + symbol_run(tokens, buf, parser_utils.index as int, leading).1,
        ensures
            parser_utils.index == run.0,
            operation@ == start + run.1,
        decreases tokens.len() - parser_utils.index,
    {
        let i = parser_utils.index;
        if i >= parser_utils.tokens.len() {
            proof {
                assert(operation@ + Seq::<char>::empty() =~= operation@);
            }
            break;
        }
        let token = parser_utils.tokens[i];
        let symbol = if leading {
            token.token_type == TokenTypes::Operator || token.token_type == TokenTypes::Equals || token.token_type
                == TokenTypes::Period
        } else {
            token.token_type == TokenTypes::Operator
        };
        if !symbol {
            proof {
                assert(operation@ + Seq::<char>::empty() =~= operation@);
            }
            break;
        }
        proof {
            lemma_symbol_step(tokens, buf, i as int, leading);
        }
        let text = token.to_string(parser_utils.buffer);
        let ghost before = operation@;
        operation.append(text.as_str());
        proof {
            assert(before + (token_text(buf, tokens[i as int]) + symbol_run(tokens, buf, i + 1, leading).1) =~= operation@
                + symbol_run(tokens, buf, i + 1, leading).1);
        }
        parser_utils.index = i + 1;
    }
}

/// Moves the index back over the closing tokens just before it.
fn trim_end(parser_utils: &mut ParserUtils)
    requires
        trim_safe(old(parser_utils).tokens@, old(parser_utils).index as int),
    ensures
        final(parser_utils).index == trimmed(old(parser_utils).tokens@, old(parser_utils).index as int),
        final(parser_utils).tokens == old(parser_utils).tokens,
        final(parser_utils).buffer == old(parser_utils).buffer,
        final(parser_utils).file == old(parser_utils).file,
        final(parser_utils).file_name == old(parser_utils).file_name,
        final(parser_utils).imports == old(parser_utils).imports,
{
    let ghost tokens = parser_utils.tokens@;
    let ghost target = trimmed(tokens, parser_utils.index as int);
    let mut last = parser_utils.tokens[parser_utils.index - 1].token_type;
    while last == TokenTypes::BlockStart || last == TokenTypes::LineEnd || last == TokenTypes::BlockEnd || last
        == TokenTypes::ArgumentEnd || last == TokenTypes::ParenClose
        invariant
            parser_utils.tokens == old(parser_utils).tokens,
            parser_utils.buffer == old(parser_utils).buffer,
            parser_utils.file == old(parser_utils).file,
            parser_utils.file_name == old(parser_utils).file_name,
            parser_utils.imports == old(parser_utils).imports,
            tokens == parser_utils.tokens@,
            trim_safe(tokens, parser_utils.index as int),
            trimmed(tokens, parser_utils.index as int) == target,
            last == tokens[parser_utils.index - 1].token_type,
        decreases parser_utils.index,
    {
        proof {
            assert(is_closing(tokens[parser_utils.index - 1].token_type));
            assert(trim_safe(tokens, parser_utils.index - 1));
        }
        parser_utils.index -= 1;
        last = parser_utils.tokens[parser_utils.index - 1].token_type;
    }
}

/// One step of reading an operator (see `operator_next`), where it can be taken
/// (`operator_safe`).
pub fn operator_step(parser_utils: &mut ParserUtils, op: &mut OperatorParse, state: OperatorState) -> (r: OperatorEvent)
    requires
        operator_safe(
            old(parser_utils).tokens@,
            old(parser_utils).buffer@,
            old(parser_utils).index as int,
            operator_model(*old(op)),
            state,
        ),
    ensures
        operator_next(
            old(parser_utils).tokens@,
            old(parser_utils).buffer@,
            old(parser_utils).index as int,
            operator_model(*old(op)),
            state,
        ) == (final(parser_utils).tokens@, final(parser_utils).index as int, operator_model(*final(op)), r),
        final(parser_utils).buffer == old(parser_utils).buffer,
        final(parser_utils).file == old(parser_utils).file,
        final(parser_utils).file_name == old(parser_utils).file_name,
        final(parser_utils).imports == old(parser_utils).imports,
{
    proof {
        reveal_strlit("{}");
    }
    match state {
        OperatorState::Start { has_left, state } => {
            let mut operation = String::new();
            if has_left {
                operation.append("{}");
            }
            parser_utils.index -= 1;
            read_symbols(parser_utils, &mut operation, true);
            op.operation = operation;
            op.index = parser_utils.index;
            op.kept = parser_utils.tokens.len();
            let next = match state {
                ParseState::ControlVariable | ParseState::ControlOperator => ParseState::ControlOperator,
                _ => ParseState::InOperator,
            };
            OperatorEvent::ReadRight(next)
        },
        OperatorState::RightRead { found, nop } => {
            if found {
                continue_after(parser_utils, op, nop)
            } else {
                parser_utils.index = op.index;
                parser_utils.tokens.truncate(op.kept);
                read_symbols(parser_utils, &mut op.operation, false);
                trim_end(parser_utils);
                OperatorEvent::Done { with_right: false }
            }
        },
        OperatorState::ElementRead { found, nop, right_nop } => {
            if found && !nop {
                continue_after(parser_utils, op, false)
            } else {
                finish(parser_utils, op, right_nop)
            }
        },
    }
}

fn continue_after(parser_utils: &mut ParserUtils, op: &mut OperatorParse, nop: bool) -> (r: OperatorEvent)
    requires
        1 <= old(parser_utils).index <= old(parser_utils).tokens@.len(),
        (old(parser_utils).tokens@[old(parser_utils).index - 1].token_type != TokenTypes::ArgumentEnd && !nop) ==> trim_safe(
            old(parser_utils).tokens@,
            old(parser_utils).index as int,
        ),
    ensures
        operator_continue(
            old(parser_utils).tokens@,
            old(parser_utils).index as int,
            operator_model(*old(op)),
            nop,
        ) == (final(parser_utils).tokens@, final(parser_utils).index as int, operator_model(*final(op)), r),
        final(parser_utils).buffer == old(parser_utils).buffer,
        final(parser_utils).file == old(parser_utils).file,
        final(parser_utils).file_name == old(parser_utils).file_name,
        final(parser_utils).imports == old(parser_utils).imports,
{
    if parser_utils.tokens[parser_utils.index - 1].token_type == TokenTypes::ArgumentEnd {
        op.index = parser_utils.index;
        op.kept = parser_utils.tokens.len();
        OperatorEvent::ReadElement
    } else {
        finish(parser_utils, op, nop)
    }
}

fn finish(parser_utils: &mut ParserUtils, op: &mut OperatorParse, nop: bool) -> (r: OperatorEvent)
    requires
        !nop ==> trim_safe(old(parser_utils).tokens@, old(parser_utils).index as int),
    ensures
        operator_finish(
            old(parser_utils).tokens@,
            old(parser_utils).index as int,
            operator_model(*old(op)),
            nop,
        ) == (final(parser_utils).tokens@, final(parser_utils).index as int, operator_model(*final(op)), r),
        final(parser_utils).buffer == old(parser_utils).buffer,
        final(parser_utils).file == old(parser_utils).file,
        final(parser_utils).file_name == old(parser_utils).file_name,
        final(parser_utils).imports == old(parser_utils).imports,
{
    proof {
        reveal_strlit("{}");
    }
    if nop {
        parser_utils.index = op.index;
        parser_utils.tokens.truncate(op.kept);
        OperatorEvent::Done { with_right: false }
    } else {
        op.operation.append("{}");
        trim_end(parser_utils);
        OperatorEvent::Done { with_right: true }
    }
}

} // verus!
