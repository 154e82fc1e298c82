use parser::function_parser::{function_step, FunctionEvent, FunctionHeader};
use parser::imports::ImportNameResolver;
use parser::program::{Span, UnparsedType};
use parser::tokenizer::Tokenizer;
use parser::tokens::{Token, TokenTypes};
use parser::top_parser::ParserUtils;

fn tokenize(source: &[u8]) -> Vec<Token> {
    let mut tokenizer = Tokenizer::new(source);
    let mut tokens = Vec::new();
    loop {
        let token = tokenizer.next();
        tokens.push(token);
        if token.token_type == TokenTypes::EOF {
            return tokens;
        }
    }
}

fn describe(event: &FunctionEvent) -> String {
    match event {
        FunctionEvent::Continue => "continue".to_string(),
        FunctionEvent::SelfField(name) => format!("self {}", name),
        FunctionEvent::Field(name, arg_type, span) => format!("field {}: {} @{}", name, arg_type, span.start),
        FunctionEvent::ReturnType(name, span) => format!("returns {} @{}", name, span.start),
        FunctionEvent::Code => "code".to_string(),
        FunctionEvent::End => "end".to_string(),
        FunctionEvent::SelfInStatic(span) => format!("self in static @{}", span.start),
    }
}

fn header() -> FunctionHeader {
    FunctionHeader { name: String::new(), span: Span::new(0, 0), last_arg: String::new(), last_arg_type: String::new() }
}

fn read_header(source: &[u8], in_type: bool) -> (Vec<String>, FunctionHeader, usize) {
    let tokens = tokenize(source);
    let mut imports = ImportNameResolver::new("main".to_string());
    if in_type {
        imports.parent = Some(UnparsedType::Basic(Span::new(1, 0), "Number".to_string()));
    }
    let mut parser_utils = ParserUtils { buffer: source, index: 3, tokens, file: 1, file_name: "main".to_string(), imports };
    let mut function = header();
    let mut events = Vec::new();
    loop {
        let event = function_step(&mut parser_utils, &mut function);
        let stop = matches!(event, FunctionEvent::Code | FunctionEvent::End | FunctionEvent::SelfInStatic(_));
        events.push(describe(&event));
        if stop {
            return (events, function, parser_utils.index);
        }
    }
}

#[test]
fn method_header_events() {
    let (events, function, index) = read_header(b"fn add(a: u8, self) -> u8 {}", true);
    assert_eq!(
        events,
        vec![
            "continue",
            "continue",
            "continue",
            "continue",
            "continue",
            "continue",
            "field a: u8 @9",
            "continue",
            "self self",
            "continue",
            "continue",
            "returns u8 @14",
            "code",
        ]
    );
    assert_eq!(function.name, "main::add");
    assert_eq!(function.span, Span { file: 1, start: 3, end: 3 });
    assert_eq!(index, 16);
}

#[test]
fn self_outside_a_type() {
    let (events, _, index) = read_header(b"fn add(a: u8, self) -> u8 {}", false);
    assert_eq!(events.last().unwrap(), "self in static @11");
    assert_eq!(index, 12);
}

#[test]
fn declaration_without_code() {
    let source = b";";
    let tokens = vec![
        Token::new(TokenTypes::CodeEnd, None, (1, 0), 0, (1, 1), 1),
        Token::new(TokenTypes::EOF, None, (1, 1), 1, (1, 1), 1),
    ];
    let mut parser_utils = ParserUtils {
        buffer: source,
        index: 0,
        tokens,
        file: 1,
        file_name: "main".to_string(),
        imports: ImportNameResolver::new("main".to_string()),
    };
    let mut function = header();
    assert_eq!(describe(&function_step(&mut parser_utils, &mut function)), "end");
    assert_eq!(parser_utils.index, 1);
    assert_eq!(describe(&function_step(&mut parser_utils, &mut function)), "end");
    assert_eq!(parser_utils.index, 1);
}
