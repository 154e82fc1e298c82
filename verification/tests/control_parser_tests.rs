use parser::control_parser::{if_step, IfError, IfEvent, IfParse, IfState};
use parser::imports::ImportNameResolver;
use parser::program::{ExpressionType, Span};
use parser::tokens::{Token, TokenTypes};
use parser::top_parser::ParserUtils;

fn tokens_of(kinds: &[TokenTypes]) -> Vec<Token> {
    kinds.iter().map(|k| Token::new(*k, None, (1, 0), 0, (1, 1), 1)).collect()
}

fn utils(tokens: Vec<Token>, index: usize, last_id: u32) -> ParserUtils<'static> {
    let mut imports = ImportNameResolver::new("control".to_string());
    imports.last_id = last_id;
    ParserUtils { buffer: b"x", index, tokens, file: 4, file_name: "control".to_string(), imports }
}

fn fresh() -> IfParse {
    IfParse { returning: ExpressionType::Line, else_ifs: 0, in_else_if: false }
}

#[test]
fn plain_if_is_a_line() {
    let mut p = utils(tokens_of(&[TokenTypes::If, TokenTypes::Variable, TokenTypes::BlockStart, TokenTypes::BlockEnd, TokenTypes::LineEnd]), 2, 7);
    let mut ip = fresh();
    assert_eq!(if_step(&mut p, &mut ip, IfState::ConditionRead { found: true }), IfEvent::ReadBody);
    assert_eq!(p.index, 3);
    p.index = 4;
    let ret = ExpressionType::Return(Span { file: 4, start: 3, end: 3 });
    let event = if_step(&mut p, &mut ip, IfState::BodyRead { returning: ret });
    assert_eq!(event, IfEvent::Done { returning: ExpressionType::Line, first_id: 7 });
    assert_eq!(p.imports.last_id, 8);
}

#[test]
fn missing_condition_or_body_are_errors() {
    let mut p = utils(tokens_of(&[TokenTypes::If, TokenTypes::LineEnd]), 1, 0);
    let mut ip = fresh();
    assert_eq!(if_step(&mut p, &mut ip, IfState::ConditionRead { found: false }), IfEvent::Error(IfError::ExpectedCondition));
    assert_eq!(if_step(&mut p, &mut ip, IfState::ConditionRead { found: true }), IfEvent::Error(IfError::ExpectedBody));
    assert_eq!(p.index, 1);
}

#[test]
fn else_if_and_else_branches() {
    let kinds = [
        TokenTypes::BlockEnd,
        TokenTypes::Else,
        TokenTypes::If,
        TokenTypes::Variable,
        TokenTypes::BlockStart,
        TokenTypes::BlockEnd,
        TokenTypes::Else,
        TokenTypes::BlockStart,
        TokenTypes::BlockEnd,
        TokenTypes::LineEnd,
    ];
    let mut p = utils(tokens_of(&kinds), 1, 10);
    let mut ip = fresh();
    assert_eq!(if_step(&mut p, &mut ip, IfState::BodyRead { returning: ExpressionType::Break }), IfEvent::ReadCondition);
    assert_eq!((p.index, ip.in_else_if, ip.returning), (3, true, ExpressionType::Break));
    p.index = 4;
    assert_eq!(if_step(&mut p, &mut ip, IfState::ConditionRead { found: true }), IfEvent::ReadBody);
    p.index = 6;
    assert_eq!(if_step(&mut p, &mut ip, IfState::BodyRead { returning: ExpressionType::Break }), IfEvent::ReadElseBody);
    assert_eq!((p.index, ip.else_ifs, ip.returning), (8, 1, ExpressionType::Break));
    p.index = 9;
    let event = if_step(&mut p, &mut ip, IfState::ElseBodyRead { returning: ExpressionType::Break });
    assert_eq!(event, IfEvent::Done { returning: ExpressionType::Break, first_id: 10 });
    assert_eq!(p.imports.last_id, 13);
}

#[test]
fn differing_branches_end_as_a_line_and_bad_else_is_an_error() {
    let mut p = utils(tokens_of(&[TokenTypes::BlockEnd, TokenTypes::Else, TokenTypes::BlockStart, TokenTypes::LineEnd]), 1, 0);
    let mut ip = fresh();
    assert_eq!(if_step(&mut p, &mut ip, IfState::BodyRead { returning: ExpressionType::Break }), IfEvent::ReadElseBody);
    p.index = 3;
    let event = if_step(&mut p, &mut ip, IfState::ElseBodyRead { returning: ExpressionType::Line });
    assert_eq!(event, IfEvent::Done { returning: ExpressionType::Line, first_id: 0 });
    assert_eq!(p.imports.last_id, 2);
    let mut q = utils(tokens_of(&[TokenTypes::BlockEnd, TokenTypes::Else, TokenTypes::Variable]), 1, 0);
    let mut iq = fresh();
    assert_eq!(if_step(&mut q, &mut iq, IfState::BodyRead { returning: ExpressionType::Line }), IfEvent::Error(IfError::ExpectedBlock));
}

#[test]
fn returns_written_in_different_places_still_agree() {
    let mut p = utils(tokens_of(&[TokenTypes::BlockEnd, TokenTypes::Else, TokenTypes::BlockStart, TokenTypes::LineEnd]), 1, 0);
    let mut ip = fresh();
    let first = ExpressionType::Return(Span { file: 4, start: 1, end: 1 });
    let second = ExpressionType::Return(Span { file: 4, start: 9, end: 9 });
    assert_eq!(if_step(&mut p, &mut ip, IfState::BodyRead { returning: first }), IfEvent::ReadElseBody);
    p.index = 3;
    match if_step(&mut p, &mut ip, IfState::ElseBodyRead { returning: second }) {
        IfEvent::Done { returning: ExpressionType::Return(span), first_id: 0 } => assert_eq!(span.start, 1),
        other => panic!("expected a returning if, got {:?}", other),
    }
    assert!(first == second);
    assert!(first != ExpressionType::Line);
}
