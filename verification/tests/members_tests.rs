use parser::imports::ImportNameResolver;
use parser::modifiers::{get_modifier, Attribute, Modifier};
use parser::program::UnparsedType;
use parser::struct_parser::{implementor_step, structure_step, ImplementorHeader, MemberEvent};
use parser::tokens::{Token, TokenTypes};
use parser::top_parser::ParserUtils;

fn show(t: &UnparsedType) -> String {
    match t {
        UnparsedType::Basic(span, name) => format!("{}@{}", name, span.start),
        UnparsedType::Generic(base, bounds) => {
            let inner: Vec<String> = bounds.iter().map(show).collect();
            format!("{}<{}>", show(base), inner.join(","))
        }
    }
}

fn layout(parts: &[(TokenTypes, &str)]) -> (Vec<u8>, Vec<Token>) {
    let mut buffer = Vec::new();
    let mut tokens = Vec::new();
    for (kind, text) in parts {
        let start = buffer.len();
        buffer.extend_from_slice(text.as_bytes());
        let end = buffer.len();
        tokens.push(Token::new(*kind, None, (1, start as u32), start, (1, end as u32), end));
    }
    (buffer, tokens)
}

fn utils(buffer: &[u8], tokens: Vec<Token>) -> ParserUtils<'_> {
    ParserUtils {
        buffer,
        index: 0,
        tokens,
        file: 5,
        file_name: "shapes".to_string(),
        imports: ImportNameResolver::new("shapes".to_string()),
    }
}

fn describe(event: &MemberEvent) -> String {
    match event {
        MemberEvent::Continue => "continue".to_string(),
        MemberEvent::Function => "function".to_string(),
        MemberEvent::Field(name) => format!("field {}", name),
        MemberEvent::End => "end".to_string(),
        MemberEvent::Invalid(span) => format!("invalid {}:{}", span.file, span.start),
    }
}

#[test]
fn structure_body_events() {
    let (buffer, tokens) = layout(&[
        (TokenTypes::Identifier, "Point"),
        (TokenTypes::GenericsStart, "<"),
        (TokenTypes::Generic, "T"),
        (TokenTypes::GenericsEnd, ">"),
        (TokenTypes::StructTopElement, "{"),
        (TokenTypes::AttributesStart, " "),
        (TokenTypes::AttributeStart, "#["),
        (TokenTypes::Attribute, "inline"),
        (TokenTypes::AttributeEnd, "]"),
        (TokenTypes::ModifiersStart, " "),
        (TokenTypes::Modifier, "pub"),
        (TokenTypes::FieldName, " x"),
        (TokenTypes::InvalidCharacters, "?"),
        (TokenTypes::FunctionStart, "fn"),
        (TokenTypes::StructEnd, "}"),
    ]);
    let mut parser_utils = utils(&buffer, tokens);
    let mut name = String::new();
    let mut attributes: Vec<Attribute> = Vec::new();
    let mut member_modifiers: Vec<Modifier> = Vec::new();
    let modifiers = get_modifier(&[Modifier::Internal]);
    let mut events = Vec::new();
    loop {
        let event = structure_step(&mut parser_utils, &mut name, &mut attributes, &mut member_modifiers, modifiers);
        let done = matches!(event, MemberEvent::End);
        events.push(describe(&event));
        if done {
            break;
        }
    }
    assert_eq!(
        events,
        vec!["continue", "continue", "continue", "continue", "continue", "field x", "invalid 5:13", "function", "end"]
    );
    assert_eq!(name, "Point");
    assert_eq!(show(parser_utils.imports.parent.as_ref().unwrap()), "Point@0<T@0>");
    assert_eq!(parser_utils.imports.generics.len(), 1);
    assert_eq!(parser_utils.imports.generics[0].0, "T");
    assert_eq!(attributes, vec![Attribute::Basic("inline".to_string())]);
    assert_eq!(member_modifiers, vec![Modifier::Public, Modifier::Internal]);
    assert_eq!(parser_utils.index, 15);
}

#[test]
fn implementation_header_events() {
    let (buffer, tokens) = layout(&[
        (TokenTypes::GenericsStart, "<"),
        (TokenTypes::Generic, "T"),
        (TokenTypes::GenericsEnd, ">"),
        (TokenTypes::Identifier, "Trait"),
        (TokenTypes::GenericsStart, "<"),
        (TokenTypes::Generic, "T"),
        (TokenTypes::GenericsEnd, ">"),
        (TokenTypes::For, "for"),
        (TokenTypes::Identifier, "Vec"),
        (TokenTypes::GenericsStart, "<"),
        (TokenTypes::Generic, "T"),
        (TokenTypes::GenericsEnd, ">"),
        (TokenTypes::StructTopElement, "{"),
        (TokenTypes::FunctionStart, "fn"),
        (TokenTypes::StructEnd, "}"),
    ]);
    let mut parser_utils = utils(&buffer, tokens);
    let mut header = ImplementorHeader { state: 0, base: None, implementor: None };
    let mut attributes: Vec<Attribute> = Vec::new();
    let mut member_modifiers: Vec<Modifier> = Vec::new();
    let modifiers = vec![Modifier::Public];
    let mut events = Vec::new();
    loop {
        let event = implementor_step(&mut parser_utils, &mut header, &mut attributes, &mut member_modifiers, &modifiers);
        let done = matches!(event, MemberEvent::End);
        events.push(describe(&event));
        if done {
            break;
        }
    }
    assert_eq!(
        events,
        vec!["continue", "continue", "continue", "continue", "continue", "continue", "continue", "function", "end"]
    );
    assert_eq!(header.state, 2);
    assert_eq!(show(header.base.as_ref().unwrap()), "Trait@3<T@5>");
    assert_eq!(show(header.implementor.as_ref().unwrap()), "Vec@8<T@10>");
    assert_eq!(show(parser_utils.imports.parent.as_ref().unwrap()), "Vec@8<T@10>");
    assert_eq!(parser_utils.imports.generics.len(), 1);
    assert!(attributes.is_empty());
}

#[test]
fn invalid_characters_in_implementation() {
    let (buffer, tokens) = layout(&[(TokenTypes::Identifier, "Trait"), (TokenTypes::InvalidCharacters, "?")]);
    let mut parser_utils = utils(&buffer, tokens);
    let mut header = ImplementorHeader { state: 0, base: None, implementor: None };
    let mut attributes: Vec<Attribute> = Vec::new();
    let mut member_modifiers: Vec<Modifier> = Vec::new();
    let modifiers = vec![Modifier::Internal];
    implementor_step(&mut parser_utils, &mut header, &mut attributes, &mut member_modifiers, &modifiers);
    let event = implementor_step(&mut parser_utils, &mut header, &mut attributes, &mut member_modifiers, &modifiers);
    assert_eq!(describe(&event), "invalid 5:1");
}
