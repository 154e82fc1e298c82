//! Reading an `if` statement with its `else if` and `else` branches.
//!
//! The statement alternates with the code parser, which reads each condition and each
//! body: each step here takes what the last read gave and says what to read next.
use vstd::prelude::*;

use crate::code::{
    body_view, create_do_while, create_for, create_while, do_while_view, effect_view, for_view, while_view, CodeBody,
    EffectView, Effects, Expression,
};
use crate::program::{same_kind, ExpressionType};
use crate::tokens::{Token, TokenTypes};
use crate::top_parser::{token_text, ParserUtils};
use crate::tokens::text_range;

verus! {

/// The state an `if` statement is read in after the step before it.
#[derive(Clone, Copy, Debug, PartialEq)]
pub enum IfState {
    /// The condition was read; `found` whether it gave an effect
    ConditionRead { found: bool },
    /// The body of the `if` or of an `else if` was read, ending as `returning`
    BodyRead { returning: ExpressionType },
    /// The body of the final `else` was read, ending as `returning`
    ElseBodyRead { returning: ExpressionType },
}

/// Why an `if` statement cannot be read.
#[derive(Clone, Copy, Debug, PartialEq)]
pub enum IfError {
    /// A condition gave nothing
    ExpectedCondition,
    /// A condition is not followed by a block
    ExpectedBody,
    /// An `else` is followed by neither `if` nor a block
    ExpectedBlock,
}

/// What reading an `if` statement asks for next.
#[derive(Clone, Copy, Debug, PartialEq)]
pub enum IfEvent {
    /// Stop with this error, made at the token at the index
    Error(IfError),
    /// Read a condition as the variable of a control statement, then resume with
    /// `ConditionRead`
    ReadCondition,
    /// Read a block of code, then resume with `BodyRead`
    ReadBody,
    /// Read the block of code of the final `else`, then resume with `ElseBodyRead`
    ReadElseBody,
    /// The statement is read: it ends as `returning`; its branches are labelled from
    /// `first_id` on
    Done { returning: ExpressionType, first_id: u32 },
}

/// An `if` statement being read: how all its branches read so far end, how many `else if`
/// branches it has, and whether the body being read is one of theirs.
#[derive(Clone, Copy, Debug, PartialEq)]
pub struct IfParse {
    /// How the branches end: as the first, or as a line where two differ
    pub returning: ExpressionType,
    /// The number of `else if` branches
    pub else_ifs: u32,
    /// Whether the condition or body being read belongs to an `else if`
    pub in_else_if: bool,
}

/// How the branches end once a body ending as `returning` is added to them.
pub open spec fn merged(ip: IfParse, returning: ExpressionType) -> ExpressionType {
    if !ip.in_else_if {
        returning
    } else if !same_kind(returning, ip.returning) {
        ExpressionType::Line
    } else {
        ip.returning
    }
}

/// One step of reading an `if` statement at token `index` with the last label id
/// `last_id`: the index, the last label id and the statement afterwards, and what to read
/// next.
/// - A missing condition is an error, and so is a condition not followed by a block; else
///   the index passes the block's start and the body is read.
/// - After a body, an `else if` moves past both tokens and reads a condition, an `else`
///   and a block move past both and read the final body, another `else` is an error;
///   without an `else` the statement is done and ends as a line.
/// - When done, the label ids move on by one for each branch.
pub open spec fn if_next(tokens: Seq<Token>, index: int, last_id: int, ip: IfParse, state: IfState) -> (
    int,
    int,
    IfParse,
    IfEvent,
) {
    match state {
        IfState::ConditionRead { found } => if !found {
            (index, last_id, ip, IfEvent::Error(IfError::ExpectedCondition))
        } else if tokens[index].token_type != TokenTypes::BlockStart {
            (index, last_id, ip, IfEvent::Error(IfError::ExpectedBody))
        } else {
            (index + 1, last_id, ip, IfEvent::ReadBody)
        },
        IfState::BodyRead { returning } => {
            let now = IfParse {
                returning: merged(ip, returning),
                else_ifs: if ip.in_else_if {
                    (ip.else_ifs + 1) as u32
                } else {
                    ip.else_ifs
                },
                in_else_if: ip.in_else_if,
            };
            if tokens[index].token_type == TokenTypes::Else {
                if tokens[index + 1].token_type == TokenTypes::If {
                    (index + 2, last_id, IfParse { in_else_if: true, ..now }, IfEvent::ReadCondition)
                } else if tokens[index + 1].token_type == TokenTypes::BlockStart {
                    (index + 2, last_id, now, IfEvent::ReadElseBody)
                } else {
                    (index, last_id, now, IfEvent::Error(IfError::ExpectedBlock))
                }
            } else {
                let adding = 1 + now.else_ifs;
                (
                    index,
                    last_id + adding,
                    IfParse { returning: ExpressionType::Line, ..now },
                    IfEvent::Done { returning: ExpressionType::Line, first_id: last_id as u32 },
                )
            }
        },
        IfState::ElseBodyRead { returning } => {
            let ending = if !same_kind(returning, ip.returning) {
                ExpressionType::Line
            } else {
                ip.returning
            };
            let adding = 2 + ip.else_ifs;
            (
                index,
                last_id + adding,
                IfParse { returning: ending, ..ip },
                IfEvent::Done { returning: ending, first_id: last_id as u32 },
            )
        },
    }
}

/// Where a step reads only tokens that exist and no count runs over: the token after a
/// condition, the `else` and the token after it, and the label ids of all branches.
pub open spec fn if_safe(tokens: Seq<Token>, index: int, last_id: int, ip: IfParse, state: IfState) -> bool {
    match state {
        IfState::ConditionRead { found } => found ==> 0 <= index < tokens.len(),
        IfState::BodyRead { .. } => {
            &&& 0 <= index < tokens.len()
            &&& ip.else_ifs < u32::MAX
            &&& tokens[index].token_type == TokenTypes::Else ==> index + 1 < tokens.len()
            &&& last_id + 2 + ip.else_ifs <= u32::MAX
        },
        IfState::ElseBodyRead { .. } => last_id + 2 + ip.else_ifs <= u32::MAX,
    }
}

/// One step of reading an `if` statement (see `if_next`), where it can be taken
/// (`if_safe`).
pub fn if_step(parser_utils: &mut ParserUtils, ip: &mut IfParse, state: IfState) -> (r: IfEvent)
    requires
        if_safe(
            old(parser_utils).tokens@,
            old(parser_utils).index as int,
            old(parser_utils).imports.last_id as int,
            *old(ip),
            state,
        ),
    ensures
        if_next(
            old(parser_utils).tokens@,
            old(parser_utils).index as int,
            old(parser_utils).imports.last_id as int,
            *old(ip),
            state,
        ) == (final(parser_utils).index as int, final(parser_utils).imports.last_id as int, *final(ip), r),
        final(parser_utils).tokens == old(parser_utils).tokens,
        final(parser_utils).buffer == old(parser_utils).buffer,
        final(parser_utils).file == old(parser_utils).file,
        final(parser_utils).file_name == old(parser_utils).file_name,
        final(parser_utils).imports.imports == old(parser_utils).imports.imports,
        final(parser_utils).imports.generics == old(parser_utils).imports.generics,
        final(parser_utils).imports.parent == old(parser_utils).imports.parent,
{
    let count = parser_utils.tokens.len();
    proof {
        assert(count == parser_utils.tokens@.len());
    }
    match state {
        IfState::ConditionRead { found } => {
            if !found {
                return IfEvent::Error(IfError::ExpectedCondition);
            }
            let index = parser_utils.index;
            if parser_utils.tokens[index].token_type != TokenTypes::BlockStart {
                return IfEvent::Error(IfError::ExpectedBody);
            }
            parser_utils.index = index + 1;
            IfEvent::ReadBody
        },
        IfState::BodyRead { returning } => {
            if ip.in_else_if {
                if returning != ip.returning {
                    ip.returning = ExpressionType::Line;
                }
                ip.else_ifs += 1;
            } else {
                ip.returning = returning;
            }
            let index = parser_utils.index;
            if parser_utils.tokens[index].token_type == TokenTypes::Else {
                let after = parser_utils.tokens[index + 1].token_type;
                if after == TokenTypes::If {
                    parser_utils.index = index + 2;
                    ip.in_else_if = true;
                    IfEvent::ReadCondition
                } else if after == TokenTypes::BlockStart {
                    parser_utils.index = index + 2;
                    IfEvent::ReadElseBody
                } else {
                    IfEvent::Error(IfError::ExpectedBlock)
                }
            } else {
                ip.returning = ExpressionType::Line;
                let first_id = parser_utils.imports.last_id;
                parser_utils.imports.last_id = first_id + 1 + ip.else_ifs;
                IfEvent::Done { returning: ExpressionType::Line, first_id }
            }
        },
        IfState::ElseBodyRead { returning } => {
            if returning != ip.returning {
                ip.returning = ExpressionType::Line;
            }
            let first_id = parser_utils.imports.last_id;
            parser_utils.imports.last_id = first_id + 2 + ip.else_ifs;
            IfEvent::Done { returning: ip.returning, first_id }
        },
    }
}

/// Why a loop cannot be read.
#[derive(Clone, Copy, Debug, PartialEq, Eq, Structural)]
pub enum LoopError {
    /// A `for` is not followed by the loop variable's name
    ExpectedVariable,
    /// The loop variable is not followed by `in`
    MissingIn,
    /// A condition or the iterated value gave nothing
    ExpectedCondition,
    /// A condition or the iterated value is not followed by a block
    ExpectedBody,
    /// The body of a `do` loop is not followed by `while`
    ExpectedWhile,
}

/// What the parts of parser state a loop step may change must keep.
pub open spec fn loop_frame(a: ParserUtils, b: ParserUtils) -> bool {
    &&& a.tokens == b.tokens
    &&& a.buffer == b.buffer
    &&& a.file == b.file
    &&& a.file_name == b.file_name
    &&& a.imports.imports == b.imports.imports
    &&& a.imports.generics == b.imports.generics
    &&& a.imports.parent == b.imports.parent
}

/// The start of a `for` loop at token `index`: the loop variable's name and `in` are
/// passed and the name's text given; an error made at the name where it is no name or
/// `in` does not follow.
pub fn for_start(parser_utils: &mut ParserUtils) -> (r: Result<String, (LoopError, usize)>)
    requires
        old(parser_utils).index + 1 < old(parser_utils).tokens@.len(),
        text_range(old(parser_utils).buffer@, old(parser_utils).tokens@[old(parser_utils).index as int]) is Some,
    ensures
        ({
            let tokens = old(parser_utils).tokens@;
            let i = old(parser_utils).index;
            if tokens[i as int].token_type != TokenTypes::Variable {
                r == Err::<String, (LoopError, usize)>((LoopError::ExpectedVariable, i))
                    && final(parser_utils).index == i + 1
            } else if tokens[i + 1].token_type != TokenTypes::In {
                r == Err::<String, (LoopError, usize)>((LoopError::MissingIn, i)) && final(parser_utils).index == i + 1
            } else {
                &&& final(parser_utils).index == i + 2
                &&& r matches Ok(name) && name@ == token_text(old(parser_utils).buffer@, tokens[i as int])
            }
        }),
        loop_frame(*final(parser_utils), *old(parser_utils)),
        final(parser_utils).imports.last_id == old(parser_utils).imports.last_id,
{
    let index = parser_utils.index;
    let count = parser_utils.tokens.len();
    proof {
        assert(index + 1 < count);
    }
    let name = parser_utils.tokens[index];
    parser_utils.index = index + 1;
    if name.token_type != TokenTypes::Variable {
        return Err((LoopError::ExpectedVariable, index));
    }
    if parser_utils.tokens[index + 1].token_type != TokenTypes::In {
        return Err((LoopError::MissingIn, index));
    }
    parser_utils.index = index + 2;
    Ok(name.to_string(parser_utils.buffer))
}

/// After the condition of a `while` loop or the iterated value of a `for` loop was read: an
/// error made at the token at the index where it gave nothing, and where no block
/// follows (made there for a `while` loop, at the token before for a `for` loop); else the
/// block's start is passed.
pub fn loop_head_read(parser_utils: &mut ParserUtils, found: bool, is_for: bool) -> (r: Result<(), (LoopError, usize)>)
    requires
        old(parser_utils).index < old(parser_utils).tokens@.len(),
        is_for ==> old(parser_utils).index >= 1,
    ensures
        ({
            let i = old(parser_utils).index;
            if !found {
                r == Err::<(), (LoopError, usize)>((LoopError::ExpectedCondition, i)) && final(parser_utils).index == i
            } else if old(parser_utils).tokens@[i as int].token_type != TokenTypes::BlockStart {
                r == Err::<(), (LoopError, usize)>((LoopError::ExpectedBody, if is_for { (i - 1) as usize } else { i }))
                    && final(parser_utils).index == i
            } else {
                r is Ok && final(parser_utils).index == i + 1
            }
        }),
        loop_frame(*final(parser_utils), *old(parser_utils)),
        final(parser_utils).imports.last_id == old(parser_utils).imports.last_id,
{
    let index = parser_utils.index;
    let count = parser_utils.tokens.len();
    if !found {
        return Err((LoopError::ExpectedCondition, index));
    }
    if parser_utils.tokens[index].token_type != TokenTypes::BlockStart {
        return Err((LoopError::ExpectedBody, if is_for { index - 1 } else { index }));
    }
    proof {
        assert(index < count);
    }
    parser_utils.index = index + 1;
    Ok(())
}

/// The end of a `for` loop, its body read: two label ids are taken and the loop is lowered
/// with the first (see `for_view`).
pub fn for_finish(parser_utils: &mut ParserUtils, name: String, iterated: Effects, body: CodeBody) -> (r: Effects)
    requires
        old(parser_utils).imports.last_id + 2 <= u32::MAX,
    ensures
        final(parser_utils).imports.last_id == old(parser_utils).imports.last_id + 2,
        effect_view(r) == for_view(name@, effect_view(iterated), body_view(body), old(parser_utils).imports.last_id as nat),
        final(parser_utils).index == old(parser_utils).index,
        loop_frame(*final(parser_utils), *old(parser_utils)),
{
    let id = parser_utils.imports.last_id;
    parser_utils.imports.last_id = id + 2;
    create_for(name, iterated, body, id)
}

/// The end of a `while` loop, its body read: a label id is taken and the loop is lowered
/// with it (see `while_view`).
pub fn while_finish(parser_utils: &mut ParserUtils, condition: Effects, body: CodeBody) -> (r: Effects)
    requires
        old(parser_utils).imports.last_id < u32::MAX,
    ensures
        final(parser_utils).imports.last_id == old(parser_utils).imports.last_id + 1,
        effect_view(r) == while_view(effect_view(condition), body_view(body), old(parser_utils).imports.last_id as nat),
        final(parser_utils).index == old(parser_utils).index,
        loop_frame(*final(parser_utils), *old(parser_utils)),
{
    let id = parser_utils.imports.last_id;
    parser_utils.imports.last_id = id + 1;
    create_while(condition, body, id)
}

/// The start of a `do` loop at token `index`: the block's start is passed; an error made
/// at the index where no block follows.
pub fn do_start(parser_utils: &mut ParserUtils) -> (r: Result<(), (LoopError, usize)>)
    requires
        old(parser_utils).index < old(parser_utils).tokens@.len(),
    ensures
        old(parser_utils).tokens@[old(parser_utils).index as int].token_type == TokenTypes::BlockStart ==> r is Ok
            && final(parser_utils).index == old(parser_utils).index + 1,
        old(parser_utils).tokens@[old(parser_utils).index as int].token_type != TokenTypes::BlockStart ==> r == Err::<
            (),
            (LoopError, usize),
        >((LoopError::ExpectedBody, old(parser_utils).index)) && final(parser_utils).index == old(parser_utils).index,
        loop_frame(*final(parser_utils), *old(parser_utils)),
        final(parser_utils).imports.last_id == old(parser_utils).imports.last_id,
{
    let index = parser_utils.index;
    let count = parser_utils.tokens.len();
    if parser_utils.tokens[index].token_type != TokenTypes::BlockStart {
        return Err((LoopError::ExpectedBody, index));
    }
    proof {
        assert(index < count);
    }
    parser_utils.index = index + 1;
    Ok(())
}

/// After the body of a `do` loop was read: `while` is passed; an error made at the index
/// where it does not follow.
pub fn do_body_read(parser_utils: &mut ParserUtils) -> (r: Result<(), (LoopError, usize)>)
    requires
        old(parser_utils).index < old(parser_utils).tokens@.len(),
    ensures
        old(parser_utils).tokens@[old(parser_utils).index as int].token_type == TokenTypes::While ==> r is Ok
            && final(parser_utils).index == old(parser_utils).index + 1,
        old(parser_utils).tokens@[old(parser_utils).index as int].token_type != TokenTypes::While ==> r == Err::<
            (),
            (LoopError, usize),
        >((LoopError::ExpectedWhile, old(parser_utils).index)) && final(parser_utils).index == old(parser_utils).index,
        loop_frame(*final(parser_utils), *old(parser_utils)),
        final(parser_utils).imports.last_id == old(parser_utils).imports.last_id,
{
    let index = parser_utils.index;
    let count = parser_utils.tokens.len();
    if parser_utils.tokens[index].token_type != TokenTypes::While {
        return Err((LoopError::ExpectedWhile, index));
    }
    proof {
        assert(index < count);
    }
    parser_utils.index = index + 1;
    Ok(())
}

/// The end of a `do` loop, its condition read: an error made at the index where it gave
/// nothing; else a label id is taken and the loop is lowered with it (see
/// `do_while_view`).
pub fn do_finish(parser_utils: &mut ParserUtils, condition: Option<Expression>, body: CodeBody) -> (r: Result<
    Effects,
    (LoopError, usize),
>)
    requires
        condition is Some ==> 1 <= old(parser_utils).imports.last_id < u32::MAX,
    ensures
        match condition {
            Some(c) => {
                &&& final(parser_utils).imports.last_id == old(parser_utils).imports.last_id + 1
                &&& r matches Ok(e) && effect_view(e) == do_while_view(
                    effect_view(c.effect),
                    body_view(body),
                    old(parser_utils).imports.last_id as nat,
                )
            },
            None => r == Err::<Effects, (LoopError, usize)>((LoopError::ExpectedCondition, old(parser_utils).index))
                && final(parser_utils).imports.last_id == old(parser_utils).imports.last_id,
        },
        final(parser_utils).index == old(parser_utils).index,
        loop_frame(*final(parser_utils), *old(parser_utils)),
{
    match condition {
        Some(c) => {
            let id = parser_utils.imports.last_id;
            parser_utils.imports.last_id = id + 1;
            Ok(create_do_while(c.effect, body, id))
        },
        None => Err((LoopError::ExpectedCondition, parser_utils.index)),
    }
}

} // verus!
