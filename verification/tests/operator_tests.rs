use parser::imports::ImportNameResolver;
use parser::operator_parser::{operator_step, OperatorEvent, OperatorParse, OperatorState};
use parser::program::ParseState;
use parser::tokens::{Token, TokenTypes};
use parser::top_parser::ParserUtils;

fn layout(parts: &[(TokenTypes, &str)]) -> (Vec<u8>, Vec<Token>) {
    let mut buffer = Vec::new();
    let mut tokens = Vec::new();
    for (kind, text) in parts {
        let start = buffer.len();
        buffer.extend_from_slice(text.as_bytes());
        let end = buffer.len();
        tokens.push(Token::new(*kind, None, (1, start as u32), start, (1, end as u32), end));
    }
    (buffer, tokens)
}

fn utils(buffer: &[u8], tokens: Vec<Token>, index: usize) -> ParserUtils<'_> {
    ParserUtils {
        buffer,
        index,
        tokens,
        file: 2,
        file_name: "ops".to_string(),
        imports: ImportNameResolver::new("ops".to_string()),
    }
}

fn fresh() -> OperatorParse {
    OperatorParse { operation: String::new(), index: 0, kept: 0 }
}

#[test]
fn binary_operator_reads_both_sides() {
    let (buffer, tokens) = layout(&[
        (TokenTypes::Variable, "a"),
        (TokenTypes::Operator, "+"),
        (TokenTypes::Variable, "b"),
        (TokenTypes::LineEnd, ";"),
    ]);
    let mut p = utils(&buffer, tokens, 2);
    let mut op = fresh();
    let event = operator_step(&mut p, &mut op, OperatorState::Start { has_left: true, state: ParseState::NoState });
    assert_eq!(event, OperatorEvent::ReadRight(ParseState::InOperator));
    assert_eq!(op.operation, "{}+");
    assert_eq!((p.index, op.index, op.kept), (2, 2, 4));
    p.index = 4;
    let event = operator_step(&mut p, &mut op, OperatorState::RightRead { found: true, nop: false });
    assert_eq!(event, OperatorEvent::Done { with_right: true });
    assert_eq!(op.operation, "{}+{}");
    assert_eq!(p.index, 3);
}

#[test]
fn control_variables_stay_control_operators() {
    let (buffer, tokens) = layout(&[(TokenTypes::Variable, "a"), (TokenTypes::Operator, "=="), (TokenTypes::Variable, "b")]);
    let mut p = utils(&buffer, tokens, 2);
    let mut op = fresh();
    let event =
        operator_step(&mut p, &mut op, OperatorState::Start { has_left: true, state: ParseState::ControlVariable });
    assert_eq!(event, OperatorEvent::ReadRight(ParseState::ControlOperator));
    let mut q = utils(&buffer, p.tokens.clone(), 2);
    let event = operator_step(&mut q, &mut fresh(), OperatorState::Start { has_left: false, state: ParseState::Argument });
    assert_eq!(event, OperatorEvent::ReadRight(ParseState::InOperator));
}

#[test]
fn leading_symbols_join_and_missing_right_goes_back() {
    let (buffer, tokens) = layout(&[
        (TokenTypes::Variable, "x"),
        (TokenTypes::Operator, "+"),
        (TokenTypes::Equals, "="),
        (TokenTypes::LineEnd, ";"),
    ]);
    let mut p = utils(&buffer, tokens, 2);
    let mut op = fresh();
    operator_step(&mut p, &mut op, OperatorState::Start { has_left: true, state: ParseState::NoState });
    assert_eq!(op.operation, "{}+=");
    assert_eq!((p.index, op.index, op.kept), (3, 3, 4));
    p.index = 4;
    p.tokens.push(Token::new(TokenTypes::Variable, None, (1, 0), 0, (1, 1), 1));
    let event = operator_step(&mut p, &mut op, OperatorState::RightRead { found: false, nop: false });
    assert_eq!(event, OperatorEvent::Done { with_right: false });
    assert_eq!(p.tokens.len(), 4);
    assert_eq!(p.index, 3);
    assert_eq!(op.operation, "{}+=");
}

#[test]
fn list_after_an_operator() {
    let (buffer, tokens) = layout(&[
        (TokenTypes::Variable, "a"),
        (TokenTypes::Operator, "+"),
        (TokenTypes::Variable, "b"),
        (TokenTypes::ArgumentEnd, ","),
        (TokenTypes::Variable, "c"),
        (TokenTypes::LineEnd, ";"),
    ]);
    let mut p = utils(&buffer, tokens, 2);
    let mut op = fresh();
    operator_step(&mut p, &mut op, OperatorState::Start { has_left: true, state: ParseState::NoState });
    p.index = 4;
    let event = operator_step(&mut p, &mut op, OperatorState::RightRead { found: true, nop: false });
    assert_eq!(event, OperatorEvent::ReadElement);
    assert_eq!((op.index, op.kept), (4, 6));
    p.index = 6;
    let event =
        operator_step(&mut p, &mut op, OperatorState::ElementRead { found: true, nop: false, right_nop: false });
    assert_eq!(event, OperatorEvent::Done { with_right: true });
    assert_eq!(op.operation, "{}+{}");
    assert_eq!(p.index, 5);
}

#[test]
fn right_side_that_does_nothing_is_dropped() {
    let (buffer, tokens) = layout(&[
        (TokenTypes::Variable, "a"),
        (TokenTypes::Operator, "!"),
        (TokenTypes::LineEnd, ";"),
    ]);
    let mut p = utils(&buffer, tokens, 2);
    let mut op = fresh();
    operator_step(&mut p, &mut op, OperatorState::Start { has_left: true, state: ParseState::NoState });
    p.index = 3;
    p.tokens.push(Token::new(TokenTypes::Variable, None, (1, 0), 0, (1, 1), 1));
    let event = operator_step(&mut p, &mut op, OperatorState::RightRead { found: true, nop: true });
    assert_eq!(event, OperatorEvent::Done { with_right: false });
    assert_eq!(op.operation, "{}!");
    assert_eq!((p.index, p.tokens.len()), (2, 3));
}
