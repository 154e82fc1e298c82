use parser::code::method_call;
use parser::code_parser::generic_method_start;
use parser::code_parser::{new_args_token, new_args_value, new_effect, new_type, NewArgsOutcome, NewArgsParse};
use parser::code::Expression;
use parser::program::{Span, UnparsedType};
use parser::code_parser::{line_advance, LineOutcome, LineParse};
use parser::program::ExpressionType;
use parser::code::EffectType;
use parser::code_parser::{literal_effect, load_field_effect, load_variable_effect};
use parser::code_parser::{is_generic, line_step, LineError, LineStep};
use parser::imports::ImportNameResolver;
use parser::program::ParseState;
use parser::tokens::{Token, TokenTypes};
use parser::top_parser::ParserUtils;

fn layout(parts: &[(TokenTypes, &str)]) -> (Vec<u8>, Vec<Token>) {
    let mut buffer = Vec::new();
    let mut tokens = Vec::new();
    for (kind, text) in parts {
        let start = buffer.len();
        buffer.extend_from_slice(text.as_bytes());
        let end = buffer.len();
        tokens.push(Token::new(*kind, None, (1, start as u32), start, (1, end as u32), end));
    }
    (buffer, tokens)
}

fn utils(buffer: &[u8], tokens: Vec<Token>, index: usize) -> ParserUtils<'_> {
    ParserUtils {
        buffer,
        index,
        tokens,
        file: 3,
        file_name: "code".to_string(),
        imports: ImportNameResolver::new("code".to_string()),
    }
}

#[test]
fn generic_arguments_follow_without_space() {
    let (buffer, tokens) = layout(&[(TokenTypes::Variable, "make"), (TokenTypes::Operator, "<"), (TokenTypes::Variable, "T")]);
    let p = utils(&buffer, tokens.clone(), 1);
    assert!(is_generic(&tokens[0], &p));
    let (spaced, spaced_tokens) =
        layout(&[(TokenTypes::Variable, "a"), (TokenTypes::Operator, " <"), (TokenTypes::Variable, "b")]);
    let q = utils(&spaced, spaced_tokens.clone(), 1);
    assert!(!is_generic(&spaced_tokens[0], &q));
    let (less, less_tokens) = layout(&[(TokenTypes::Variable, "a"), (TokenTypes::Operator, "<="), (TokenTypes::Variable, "b")]);
    let r = utils(&less, less_tokens.clone(), 1);
    assert!(!is_generic(&less_tokens[0], &r));
}

#[test]
fn values_after_values_are_errors() {
    let (buffer, tokens) = layout(&[(TokenTypes::Variable, "a"), (TokenTypes::Integer, "1"), (TokenTypes::LineEnd, ";")]);
    let p = utils(&buffer, tokens.clone(), 2);
    assert_eq!(line_step(&p, tokens[1], ParseState::NoState, true), LineStep::Error(LineError::UnexpectedValue));
    assert_eq!(line_step(&p, tokens[1], ParseState::NoState, false), LineStep::Literal);
    let q = utils(&buffer, tokens.clone(), 1);
    assert_eq!(line_step(&q, tokens[0], ParseState::NoState, true), LineStep::Error(LineError::UnexpectedValue));
    assert_eq!(line_step(&q, tokens[0], ParseState::NoState, false), LineStep::LoadVariable);
}

#[test]
fn line_ends_and_blocks() {
    let (buffer, tokens) = layout(&[
        (TokenTypes::Variable, "x"),
        (TokenTypes::LineEnd, ";"),
        (TokenTypes::BlockStart, "{"),
        (TokenTypes::BlockEnd, "}"),
        (TokenTypes::EOF, ""),
    ]);
    let p = utils(&buffer, tokens.clone(), 2);
    assert_eq!(line_step(&p, tokens[1], ParseState::NoState, true), LineStep::Finish { back: true });
    let q = utils(&buffer, tokens.clone(), 3);
    assert_eq!(line_step(&q, tokens[2], ParseState::ControlVariable, true), LineStep::Finish { back: true });
    assert_eq!(line_step(&q, tokens[2], ParseState::NoState, false), LineStep::Block);
    assert_eq!(line_step(&q, tokens[2], ParseState::NoState, true), LineStep::Error(LineError::UnexpectedValue));
    let r = utils(&buffer, tokens.clone(), 4);
    assert_eq!(line_step(&r, tokens[3], ParseState::New, false), LineStep::Finish { back: false });
    assert_eq!(line_step(&r, tokens[3], ParseState::NoState, false), LineStep::EndOfCode);
    assert_eq!(line_step(&r, tokens[3], ParseState::NoState, true), LineStep::Error(LineError::UnexpectedValue));
}

#[test]
fn operators_assignments_and_calls() {
    let (buffer, tokens) = layout(&[
        (TokenTypes::Variable, "x"),
        (TokenTypes::Equals, "="),
        (TokenTypes::Integer, "2"),
        (TokenTypes::Operator, "+"),
        (TokenTypes::Equals, "="),
        (TokenTypes::Variable, "f"),
        (TokenTypes::ParenOpen, "("),
        (TokenTypes::ParenClose, ")"),
    ]);
    let p = utils(&buffer, tokens.clone(), 2);
    assert_eq!(line_step(&p, tokens[1], ParseState::NoState, true), LineStep::Assign);
    assert_eq!(line_step(&p, tokens[1], ParseState::InOperator, false), LineStep::Operator { ends_line: true });
    let q = utils(&buffer, tokens.clone(), 4);
    assert_eq!(line_step(&q, tokens[3], ParseState::NoState, true), LineStep::Operator { ends_line: false });
    let r = utils(&buffer, tokens.clone(), 5);
    assert_eq!(line_step(&r, tokens[4], ParseState::ControlOperator, false), LineStep::Operator { ends_line: true });
    assert_eq!(line_step(&r, tokens[4], ParseState::NoState, true), LineStep::Assign);
    let s = utils(&buffer, tokens.clone(), 7);
    assert_eq!(line_step(&s, tokens[6], ParseState::NoState, false), LineStep::MethodCall);
    let t = utils(&buffer, tokens.clone(), 6);
    assert_eq!(line_step(&t, tokens[5], ParseState::NoState, false), LineStep::Skip { returning: false });
}

#[test]
fn generic_method_calls_and_fields() {
    let (buffer, tokens) = layout(&[
        (TokenTypes::Variable, "make"),
        (TokenTypes::Operator, "<"),
        (TokenTypes::Variable, "T"),
        (TokenTypes::CallingType, ".size"),
        (TokenTypes::LineEnd, ";"),
        (TokenTypes::Else, "else"),
        (TokenTypes::Return, "return"),
    ]);
    let p = utils(&buffer, tokens.clone(), 2);
    assert_eq!(line_step(&p, tokens[1], ParseState::NoState, false), LineStep::GenericMethod);
    let q = utils(&buffer, tokens.clone(), 4);
    assert_eq!(line_step(&q, tokens[3], ParseState::NoState, true), LineStep::LoadField);
    assert_eq!(line_step(&q, tokens[3], ParseState::NoState, false), LineStep::Error(LineError::ExtraSymbol));
    let r = utils(&buffer, tokens.clone(), 6);
    assert_eq!(line_step(&r, tokens[5], ParseState::NoState, false), LineStep::Error(LineError::UnexpectedElse));
    let s = utils(&buffer, tokens.clone(), 7);
    assert_eq!(line_step(&s, tokens[6], ParseState::NoState, false), LineStep::Skip { returning: true });
}

fn text_of(e: &parser::code::Effects) -> String {
    match &e.types {
        parser::code::EffectType::Text(t) => t.clone(),
        _ => panic!("not a text"),
    }
}

#[test]
fn strings_read_with_escapes() {
    let (buffer, tokens) = layout(&[
        (TokenTypes::StringStart, "\""),
        (TokenTypes::StringEscape, "hi\\n"),
        (TokenTypes::StringEscape, "\\t"),
        (TokenTypes::StringEscape, "a\\x41"),
        (TokenTypes::StringEnd, "end\""),
        (TokenTypes::LineEnd, ";"),
    ]);
    let mut p = utils(&buffer, tokens, 0);
    let effect = parser::code_parser::parse_string(&mut p);
    assert_eq!(text_of(&effect), "hi\n\taAend\0");
    assert_eq!(p.index, 5);
    assert_eq!((effect.span.start, effect.span.end), (4, 4));
}

#[test]
fn plain_strings_and_quotes() {
    let (buffer, tokens) = layout(&[
        (TokenTypes::StringStart, "\""),
        (TokenTypes::StringEscape, "say \\\""),
        (TokenTypes::StringEnd, "x\""),
    ]);
    let mut p = utils(&buffer, tokens, 1);
    let effect = parser::code_parser::parse_string(&mut p);
    assert_eq!(text_of(&effect), "say \"x\0");
    assert_eq!(p.index, 3);
}

#[test]
fn literals_and_loads_become_effects() {
    let (buffer, tokens) = layout(&[
        (TokenTypes::Integer, "42"),
        (TokenTypes::Float, "1.5"),
        (TokenTypes::Char, "'z'"),
        (TokenTypes::True, "true"),
        (TokenTypes::Variable, "count"),
        (TokenTypes::CallingType, "size"),
    ]);
    let p = utils(&buffer, tokens.clone(), 1);
    assert!(matches!(literal_effect(&p, tokens[0]).types, EffectType::Int(42)));
    match literal_effect(&p, tokens[1]).types {
        EffectType::Float(text) => assert_eq!(text, "1.5"),
        _ => panic!("expected a float"),
    }
    assert!(matches!(literal_effect(&p, tokens[2]).types, EffectType::Char('z')));
    assert!(matches!(literal_effect(&p, tokens[3]).types, EffectType::Bool(true)));
    assert_eq!(literal_effect(&p, tokens[0]).span.start, 1);
    let var = load_variable_effect(&p, tokens[4]);
    match &var.types {
        EffectType::LoadVariable(name) => assert_eq!(name, "count"),
        _ => panic!("expected a load"),
    }
    match load_field_effect(&p, var, tokens[5]).types {
        EffectType::Load(from, name) => {
            assert_eq!(name, "size");
            assert!(matches!(from.types, EffectType::LoadVariable(_)));
        }
        _ => panic!("expected a field load"),
    }
}

#[test]
fn a_line_read_token_by_token() {
    let (buffer, tokens) = layout(&[
        (TokenTypes::Return, "return"),
        (TokenTypes::Variable, "point"),
        (TokenTypes::CallingType, ".x"),
        (TokenTypes::LineEnd, ";"),
        (TokenTypes::Integer, "5"),
        (TokenTypes::Let, "let"),
    ]);
    let mut p = utils(&buffer, tokens, 0);
    let mut parse = LineParse { effect: None, expression_type: ExpressionType::Line };
    parse = match line_advance(&mut p, parse, ParseState::NoState) {
        LineOutcome::Continue(parse) => parse,
        _ => panic!("expected to go on"),
    };
    assert!(matches!(parse.expression_type, ExpressionType::Return(span) if span.start == 0));
    parse = match line_advance(&mut p, parse, ParseState::NoState) {
        LineOutcome::Continue(parse) => parse,
        _ => panic!("expected to go on"),
    };
    assert!(matches!(parse.effect, Some(ref e) if matches!(e.types, EffectType::LoadVariable(ref n) if n == "point")));
    parse = match line_advance(&mut p, parse, ParseState::NoState) {
        LineOutcome::Continue(parse) => parse,
        _ => panic!("expected to go on"),
    };
    assert!(matches!(parse.effect, Some(ref e) if matches!(e.types, EffectType::Load(_, ref n) if n == ".x")));
    let parse = match line_advance(&mut p, parse, ParseState::NoState) {
        LineOutcome::Line(parse) => parse,
        _ => panic!("expected the line to end"),
    };
    assert_eq!(p.index, 3);
    assert!(parse.effect.is_some());
    p.index = 4;
    match line_advance(&mut p, parse, ParseState::NoState) {
        LineOutcome::Error(LineError::UnexpectedValue, span) => assert_eq!(span.start, 4),
        _ => panic!("expected an error"),
    }
    let fresh = LineParse { effect: None, expression_type: ExpressionType::Line };
    match line_advance(&mut p, fresh, ParseState::NoState) {
        LineOutcome::Read(LineStep::Statement, token, _) => assert_eq!(token.token_type, TokenTypes::Let),
        _ => panic!("expected a statement to read"),
    }
}

#[test]
fn new_expressions_read_their_type_and_fields() {
    let (buffer, tokens) = layout(&[
        (TokenTypes::Variable, "Point"),
        (TokenTypes::BlockStart, "{"),
        (TokenTypes::Variable, "x"),
        (TokenTypes::Colon, ":"),
        (TokenTypes::Integer, "1"),
        (TokenTypes::ArgumentEnd, ","),
        (TokenTypes::Variable, "y"),
        (TokenTypes::ArgumentEnd, ","),
        (TokenTypes::Comment, "//"),
        (TokenTypes::BlockEnd, "}"),
    ]);
    let mut p = utils(&buffer, tokens, 0);
    let created = new_type(&mut p);
    assert!(matches!(created, UnparsedType::Basic(ref span, ref name) if name == "Point" && span.start == 0));
    assert_eq!(p.index, 2);
    let mut parse = NewArgsParse { values: vec![], name: String::new() };
    parse = match new_args_token(&mut p, parse) {
        NewArgsOutcome::Continue(parse) => parse,
        _ => panic!("expected a name"),
    };
    assert_eq!(parse.name, "x");
    parse = match new_args_token(&mut p, parse) {
        NewArgsOutcome::ReadValue(parse) => parse,
        _ => panic!("expected a value to read"),
    };
    p.index = 5;
    let value = Expression {
        expression_type: ExpressionType::Line,
        effect: parser::code::Effects { types: EffectType::Int(1), span: Span { file: 3, start: 4, end: 4 } },
    };
    parse = new_args_value(&mut p, parse, Some(value)).unwrap();
    assert_eq!(p.index, 6);
    assert_eq!(parse.values.len(), 1);
    assert!(parse.name.is_empty());
    parse = match new_args_token(&mut p, parse) {
        NewArgsOutcome::Continue(parse) => parse,
        _ => panic!("expected a name"),
    };
    parse = match new_args_token(&mut p, parse) {
        NewArgsOutcome::Continue(parse) => parse,
        _ => panic!("expected a shorthand field"),
    };
    assert_eq!(parse.values.len(), 2);
    assert_eq!(parse.values[1].0, "y");
    assert!(matches!(parse.values[1].1.types, EffectType::LoadVariable(ref n) if n == "y"));
    parse = match new_args_token(&mut p, parse) {
        NewArgsOutcome::Continue(parse) => parse,
        _ => panic!("expected the comment to be skipped"),
    };
    let values = match new_args_token(&mut p, parse) {
        NewArgsOutcome::Done(values) => values,
        _ => panic!("expected the end"),
    };
    assert_eq!(p.index, 10);
    let effect = new_effect(3, 0, created, values);
    assert!(matches!(effect.types, EffectType::CreateStruct(_, ref fields) if fields.len() == 2));
    assert!(new_args_value(&mut p, NewArgsParse { values: vec![], name: String::new() }, None).is_none());
}

#[test]
fn new_expressions_with_generic_types() {
    let (buffer, tokens) = layout(&[
        (TokenTypes::Variable, "List"),
        (TokenTypes::Operator, "<"),
        (TokenTypes::Variable, "T"),
        (TokenTypes::Operator, ">"),
        (TokenTypes::BlockStart, "{"),
    ]);
    let mut p = utils(&buffer, tokens, 0);
    let created = new_type(&mut p);
    match created {
        UnparsedType::Generic(base, bounds) => {
            assert!(matches!(*base, UnparsedType::Basic(_, ref name) if name == "List"));
            assert_eq!(bounds.len(), 1);
        }
        _ => panic!("expected a generic type"),
    }
    assert_eq!(p.index, 5);
}

#[test]
fn generic_method_calls_read_their_name_and_arguments() {
    let (buffer, tokens) = layout(&[
        (TokenTypes::Variable, "make"),
        (TokenTypes::Operator, "<"),
        (TokenTypes::Variable, "T"),
        (TokenTypes::Operator, ">"),
        (TokenTypes::Colon, ":"),
        (TokenTypes::Colon, ":"),
        (TokenTypes::Variable, "new"),
        (TokenTypes::ParenOpen, "("),
        (TokenTypes::ParenClose, ")"),
    ]);
    let mut p = utils(&buffer, tokens.clone(), 2);
    let (name, generics, token) = generic_method_start(&mut p);
    assert_eq!(name, "make::new");
    assert_eq!(generics.len(), 1);
    assert_eq!(token, 0);
    assert_eq!(p.index, 8);
    let call = method_call(None, name, vec![], generics, Span { file: 3, start: token, end: token });
    match call.types {
        EffectType::MethodCall(None, ref n, ref args, ref explicit) => {
            assert_eq!(n, "make::new");
            assert!(args.is_empty());
            assert_eq!(explicit.len(), 1);
        }
        _ => panic!("expected a method call"),
    }
    let (plain, plain_tokens) = layout(&[
        (TokenTypes::Variable, "make"),
        (TokenTypes::Operator, "<"),
        (TokenTypes::Variable, "T"),
        (TokenTypes::Operator, ">"),
        (TokenTypes::ParenOpen, "("),
        (TokenTypes::ParenClose, ")"),
    ]);
    let mut q = utils(&plain, plain_tokens, 2);
    let (name, _, _) = generic_method_start(&mut q);
    assert_eq!(name, "make");
    assert_eq!(q.index, 5);
}
