use parser::code::{CodeBody, EffectType, Effects, Expression};
use parser::code_parser::{args_start, args_step, code_step, let_finish, let_start, ArgsStep, CodeParse, CodeStep, LetError};
use parser::control_parser::{do_body_read, do_finish, do_start, for_finish, for_start, loop_head_read, while_finish, LoopError};
use parser::imports::ImportNameResolver;
use parser::program::{ExpressionType, Span};
use parser::tokens::{Token, TokenTypes};
use parser::top_parser::ParserUtils;

fn layout(parts: &[(TokenTypes, &str)]) -> (Vec<u8>, Vec<Token>) {
    let mut buffer = Vec::new();
    let mut tokens = Vec::new();
    for (kind, text) in parts {
        let start = buffer.len();
        buffer.extend_from_slice(text.as_bytes());
        let end = buffer.len();
        tokens.push(Token::new(*kind, None, (1, start as u32), start, (1, end as u32), end));
    }
    (buffer, tokens)
}

fn utils(buffer: &[u8], tokens: Vec<Token>, index: usize, last_id: u32) -> ParserUtils<'_> {
    let mut imports = ImportNameResolver::new("loops".to_string());
    imports.last_id = last_id;
    ParserUtils { buffer, index, tokens, file: 6, file_name: "loops".to_string(), imports }
}

fn load(name: &str, at: usize) -> Effects {
    Effects { types: EffectType::LoadVariable(name.to_string()), span: Span { file: 6, start: at, end: at } }
}

fn line(expression_type: ExpressionType, effect: Effects) -> Expression {
    Expression { expression_type, effect }
}

fn empty_body(label: &str) -> CodeBody {
    CodeBody { label: label.to_string(), expressions: vec![] }
}

#[test]
fn blocks_collect_lines_and_take_a_label() {
    let (buffer, tokens) = layout(&[(TokenTypes::Variable, "a"), (TokenTypes::LineEnd, ";"), (TokenTypes::BlockEnd, "}")]);
    let mut p = utils(&buffer, tokens, 1, 12);
    let parse = CodeParse { lines: vec![], returning: ExpressionType::Line };
    let ret = ExpressionType::Return(Span { file: 6, start: 0, end: 0 });
    let parse = match code_step(&mut p, parse, Some(line(ret, load("a", 0)))) {
        CodeStep::Continue(parse) => parse,
        CodeStep::Done(..) => panic!("expected more lines"),
    };
    assert_eq!(p.index, 2);
    assert_eq!(parse.returning, ret);
    let parse = match code_step(&mut p, parse, Some(line(ExpressionType::Line, load("b", 2)))) {
        CodeStep::Continue(parse) => parse,
        CodeStep::Done(..) => panic!("expected more lines"),
    };
    assert_eq!(p.index, 2);
    match code_step(&mut p, parse, None) {
        CodeStep::Done(returning, body) => {
            assert_eq!(returning, ret);
            assert_eq!(body.label, "12");
            assert_eq!(body.expressions.len(), 2);
        }
        CodeStep::Continue(_) => panic!("expected the end"),
    }
    assert_eq!(p.imports.last_id, 13);
}

#[test]
fn call_arguments() {
    let (buffer, tokens) = layout(&[
        (TokenTypes::ParenOpen, "("),
        (TokenTypes::Variable, "x"),
        (TokenTypes::ArgumentEnd, ","),
        (TokenTypes::Variable, "y"),
        (TokenTypes::ParenClose, ")"),
    ]);
    let mut p = utils(&buffer, tokens.clone(), 1, 0);
    let parse = match args_start(&mut p) {
        ArgsStep::Continue(parse) => parse,
        ArgsStep::Done(_) => panic!("expected arguments"),
    };
    assert_eq!(parse.start, 1);
    p.index = 2;
    let parse = match args_step(&mut p, parse, Some(line(ExpressionType::Line, load("x", 2)))) {
        ArgsStep::Continue(parse) => parse,
        ArgsStep::Done(_) => panic!("expected another argument"),
    };
    assert_eq!(p.index, 3);
    p.index = 4;
    match args_step(&mut p, parse, Some(line(ExpressionType::Line, load("y", 4)))) {
        ArgsStep::Done(list) => {
            assert_eq!(list.len(), 2);
            assert_eq!((list[0].span.start, list[0].span.end), (1, 2));
            assert_eq!(list[1].span.start, 1);
        }
        ArgsStep::Continue(_) => panic!("expected the end"),
    }
    assert_eq!(p.index, 5);
    let mut q = utils(&buffer, tokens, 4, 0);
    assert!(matches!(args_start(&mut q), ArgsStep::Done(list) if list.is_empty()));
    assert_eq!(q.index, 5);
}

#[test]
fn let_statements() {
    let (buffer, tokens) = layout(&[
        (TokenTypes::Variable, "x"),
        (TokenTypes::Equals, "="),
        (TokenTypes::Integer, "1"),
        (TokenTypes::LineEnd, ";"),
    ]);
    let mut p = utils(&buffer, tokens.clone(), 0, 0);
    let (name, span) = let_start(&mut p).unwrap();
    assert_eq!(name, "x");
    assert_eq!((p.index, span.start), (2, 2));
    p.index = 3;
    let effect = let_finish(&p, name, span, Some(line(ExpressionType::Line, load("v", 2)))).unwrap();
    assert!(matches!(effect.types, EffectType::CreateVariable(ref n, _) if n == "x"));
    assert_eq!((effect.span.start, effect.span.end), (2, 1));
    assert!(matches!(let_finish(&p, "x".to_string(), span, None), Err((LetError::UnexpectedVoid, s)) if s.start == 3));
    let mut q = utils(&buffer, tokens.clone(), 1, 0);
    assert!(matches!(let_start(&mut q), Err((LetError::UnexpectedToken, s)) if s.start == 1));
    let mut r = utils(&buffer, tokens, 2, 0);
    assert!(matches!(let_start(&mut r), Err((LetError::UnexpectedToken, _))));
    let (bad, bad_tokens) = layout(&[(TokenTypes::Variable, "x"), (TokenTypes::Integer, "1")]);
    let mut s = utils(&bad, bad_tokens, 0, 0);
    assert!(matches!(let_start(&mut s), Err((LetError::UnexpectedSymbol, _))));
}

#[test]
fn for_and_while_loops() {
    let (buffer, tokens) = layout(&[
        (TokenTypes::Variable, "item"),
        (TokenTypes::In, "in"),
        (TokenTypes::Variable, "list"),
        (TokenTypes::BlockStart, "{"),
        (TokenTypes::BlockEnd, "}"),
    ]);
    let mut p = utils(&buffer, tokens.clone(), 0, 20);
    assert_eq!(for_start(&mut p).unwrap(), "item");
    assert_eq!(p.index, 2);
    p.index = 3;
    assert!(loop_head_read(&mut p, true, true).is_ok());
    assert_eq!(p.index, 4);
    let lowered = for_finish(&mut p, "item".to_string(), load("list", 2), empty_body("b"));
    assert_eq!(p.imports.last_id, 22);
    assert!(matches!(lowered.types, EffectType::CodeBody(ref b) if b.label == "20" && b.expressions.len() == 4));
    let mut q = utils(&buffer, tokens.clone(), 1, 0);
    assert_eq!(for_start(&mut q), Err((LoopError::ExpectedVariable, 1)));
    let mut r = utils(&buffer, tokens.clone(), 2, 0);
    assert_eq!(loop_head_read(&mut r, false, false), Err((LoopError::ExpectedCondition, 2)));
    assert_eq!(loop_head_read(&mut r, true, true), Err((LoopError::ExpectedBody, 1)));
    assert_eq!(loop_head_read(&mut r, true, false), Err((LoopError::ExpectedBody, 2)));
    let mut w = utils(&buffer, tokens, 4, 3);
    let lowered = while_finish(&mut w, load("go", 1), empty_body("b"));
    assert_eq!(w.imports.last_id, 4);
    assert!(matches!(lowered.types, EffectType::CodeBody(ref b) if b.label == "3"));
}

#[test]
fn do_while_loops() {
    let (buffer, tokens) = layout(&[
        (TokenTypes::BlockStart, "{"),
        (TokenTypes::BlockEnd, "}"),
        (TokenTypes::While, "while"),
        (TokenTypes::Variable, "go"),
    ]);
    let mut p = utils(&buffer, tokens.clone(), 0, 5);
    assert!(do_start(&mut p).is_ok());
    assert_eq!(p.index, 1);
    p.index = 2;
    assert!(do_body_read(&mut p).is_ok());
    assert_eq!(p.index, 3);
    let lowered = do_finish(&mut p, Some(line(ExpressionType::Line, load("go", 3))), empty_body("b")).unwrap();
    assert!(matches!(lowered.types, EffectType::CodeBody(ref b) if b.label == "5"));
    assert_eq!(p.imports.last_id, 6);
    assert!(matches!(do_finish(&mut p, None, empty_body("b")), Err((LoopError::ExpectedCondition, 3))));
    let mut q = utils(&buffer, tokens, 1, 5);
    assert_eq!(do_start(&mut q), Err((LoopError::ExpectedBody, 1)));
    assert_eq!(do_body_read(&mut q), Err((LoopError::ExpectedWhile, 1)));
}
