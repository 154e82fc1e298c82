use parser::imports::ImportNameResolver;
use parser::program::{Span, UnparsedType};
use parser::struct_parser::{parse_bounds, parse_generics as parse_declared_generics, parse_type_generics};
use parser::tokens::{Token, TokenTypes};
use parser::top_parser::ParserUtils;
use parser::type_parser::parse_generics;

fn show(t: &UnparsedType) -> String {
    match t {
        UnparsedType::Basic(span, name) => format!("{}@{}", name, span.start),
        UnparsedType::Generic(base, bounds) => {
            let inner: Vec<String> = bounds.iter().map(show).collect();
            format!("{}<{}>", show(base), inner.join(","))
        }
    }
}

/// Lays the texts end to end in a buffer, each with a token of the given kind over it.
fn layout(parts: &[(TokenTypes, &str)]) -> (Vec<u8>, Vec<Token>) {
    let mut buffer = Vec::new();
    let mut tokens = Vec::new();
    for (kind, text) in parts {
        let start = buffer.len();
        buffer.extend_from_slice(text.as_bytes());
        let end = buffer.len();
        tokens.push(Token::new(*kind, None, (1, start as u32), start, (1, end as u32), end));
    }
    (buffer, tokens)
}

fn utils(buffer: &[u8], tokens: Vec<Token>, index: usize) -> ParserUtils<'_> {
    ParserUtils {
        buffer,
        index,
        tokens,
        file: 3,
        file_name: "lib".to_string(),
        imports: ImportNameResolver::new("lib".to_string()),
    }
}

fn named(name: &str) -> UnparsedType {
    UnparsedType::Basic(Span::new(3, 99), name.to_string())
}

#[test]
fn generic_arguments_of_a_type() {
    let (buffer, tokens) = layout(&[
        (TokenTypes::Variable, "A"),
        (TokenTypes::ArgumentEnd, ","),
        (TokenTypes::Variable, "B"),
        (TokenTypes::Operator, ">"),
        (TokenTypes::LineEnd, ";"),
    ]);
    let mut parser_utils = utils(&buffer, tokens, 0);
    let result = parse_generics(named("Vec"), &mut parser_utils);
    assert_eq!(show(&result), "Vec@99<A@0,B@2>");
    assert_eq!(parser_utils.index, 4);
}

#[test]
fn name_before_the_end_is_dropped() {
    let (buffer, tokens) = layout(&[
        (TokenTypes::Variable, "A"),
        (TokenTypes::Operator, "<"),
        (TokenTypes::Variable, "B"),
        (TokenTypes::LineEnd, ";"),
    ]);
    let mut parser_utils = utils(&buffer, tokens, 0);
    let result = parse_generics(named("Vec"), &mut parser_utils);
    assert_eq!(show(&result), "Vec@99<A@0>");
    assert_eq!(parser_utils.index, 3);
}

#[test]
fn no_generic_arguments() {
    let (buffer, tokens) = layout(&[(TokenTypes::LineEnd, ";")]);
    let mut parser_utils = utils(&buffer, tokens, 0);
    let result = parse_generics(named("Vec"), &mut parser_utils);
    assert_eq!(show(&result), "Vec@99");
    assert_eq!(parser_utils.index, 0);
}

#[test]
fn nested_type_generics() {
    let (buffer, tokens) = layout(&[
        (TokenTypes::Generic, "A"),
        (TokenTypes::GenericsStart, "<"),
        (TokenTypes::Generic, "B"),
        (TokenTypes::GenericEnd, ","),
        (TokenTypes::Generic, "C"),
        (TokenTypes::GenericsEnd, ">"),
        (TokenTypes::GenericEnd, ","),
        (TokenTypes::Generic, "D"),
        (TokenTypes::GenericsEnd, ">"),
        (TokenTypes::LineEnd, ";"),
    ]);
    let mut parser_utils = utils(&buffer, tokens, 0);
    let result = parse_type_generics(&mut parser_utils);
    let shown: Vec<String> = result.iter().map(show).collect();
    assert_eq!(shown, vec!["A@0<B@2,C@4>".to_string(), "D@7".to_string()]);
    assert_eq!(parser_utils.index, 9);
}

#[test]
fn bounds_up_to_bound_end() {
    let (buffer, tokens) = layout(&[
        (TokenTypes::GenericsStart, "<"),
        (TokenTypes::GenericBound, ":Clone "),
        (TokenTypes::GenericBoundEnd, ">"),
        (TokenTypes::LineEnd, ";"),
    ]);
    let mut parser_utils = utils(&buffer, tokens, 0);
    let result = parse_bounds(named("T"), &mut parser_utils).unwrap();
    assert_eq!(show(&result), "T@99<Clone@1>");
    assert_eq!(parser_utils.index, 3);
}

#[test]
fn bounds_up_to_generics_end() {
    let (buffer, tokens) = layout(&[
        (TokenTypes::GenericsStart, "<"),
        (TokenTypes::Generic, "Copy"),
        (TokenTypes::GenericsEnd, ">"),
    ]);
    let mut parser_utils = utils(&buffer, tokens, 0);
    let result = parse_bounds(named("T"), &mut parser_utils).unwrap();
    assert_eq!(show(&result), "T@99<Copy@1>");
    assert_eq!(parser_utils.index, 2);
}

#[test]
fn no_bounds_leaves_the_name() {
    let (buffer, tokens) = layout(&[(TokenTypes::GenericEnd, ",")]);
    let mut parser_utils = utils(&buffer, tokens, 0);
    let result = parse_bounds(named("T"), &mut parser_utils).unwrap();
    assert_eq!(show(&result), "T@99");
    assert_eq!(parser_utils.index, 0);
}

#[test]
fn unexpected_token_breaks_bounds_off() {
    let (buffer, tokens) = layout(&[(TokenTypes::GenericsStart, "<"), (TokenTypes::Comment, "//")]);
    let mut parser_utils = utils(&buffer, tokens, 0);
    assert!(parse_bounds(named("T"), &mut parser_utils).is_none());
    assert_eq!(parser_utils.index, 1);
}

#[test]
fn declared_generics_with_bounds() {
    let (buffer, tokens) = layout(&[
        (TokenTypes::Generic, "T"),
        (TokenTypes::GenericBound, ": Display"),
        (TokenTypes::GenericEnd, ","),
        (TokenTypes::Generic, ", \u{3000}U"),
        (TokenTypes::GenericEnd, ","),
        (TokenTypes::Generic, ",T"),
        (TokenTypes::GenericBound, ":Copy"),
        (TokenTypes::GenericsEnd, ">"),
        (TokenTypes::LineEnd, ";"),
    ]);
    let mut parser_utils = utils(&buffer, tokens, 0);
    parse_declared_generics(&mut parser_utils);
    let shown: Vec<(String, Vec<String>)> = parser_utils
        .imports
        .generics
        .iter()
        .map(|(name, bounds)| (name.clone(), bounds.iter().map(show).collect()))
        .collect();
    assert_eq!(
        shown,
        vec![("T".to_string(), vec!["Copy@6".to_string()]), ("U".to_string(), vec![])]
    );
    assert_eq!(parser_utils.index, 8);
}

#[test]
fn unparsed_types_print_and_clone() {
    let inner = UnparsedType::Generic(Box::new(named("Map")), vec![named("K"), named("V")]);
    let outer = UnparsedType::Generic(Box::new(named("Vec")), vec![named("A"), inner]);
    assert_eq!(outer.to_string(), "Vec<A + Map<K + V>>");
    assert_eq!(named("Plain").to_string(), "Plain");
    let copy = outer.clone();
    assert_eq!(show(&copy), show(&outer));
    assert_eq!(copy.to_string(), "Vec<A + Map<K + V>>");
}
