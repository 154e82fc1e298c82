use parser::imports::ImportNameResolver;
use parser::modifiers::{get_modifier, Attribute, Modifier};
use parser::struct_parser::{structure_step, MemberEvent};
use parser::top_parser::{
    parse_attribute, parse_import, parse_modifier, parse_top_token, top_action, ParserUtils, TopAction,
};
use parser::tokenizer::Tokenizer;
use parser::tokens::{Token, TokenTypes};

fn tokenize(source: &[u8], count: usize) -> Vec<Token> {
    let mut tokenizer = Tokenizer::new(source);
    (0..count).map(|_| tokenizer.next()).collect()
}

fn token(token_type: TokenTypes, start: usize, end: usize) -> Token {
    Token::new(token_type, None, (1, start as u32), start, (1, end as u32), end)
}

fn utils(buffer: &[u8], tokens: Vec<Token>, index: usize) -> ParserUtils<'_> {
    ParserUtils {
        buffer,
        index,
        tokens,
        file: 7,
        file_name: "main".to_string(),
        imports: ImportNameResolver::new("main".to_string()),
    }
}

#[test]
fn import_adds_the_name() {
    let source = b"import test;";
    let mut parser_utils = utils(source, tokenize(source, 4), 1);
    parse_import(&mut parser_utils);
    assert_eq!(parser_utils.imports.imports, vec!["main".to_string(), "test".to_string()]);
    assert_eq!(parser_utils.index, 3);
    assert_eq!(parser_utils.tokens[parser_utils.index].token_type, TokenTypes::EOF);
}

#[test]
fn import_without_name_adds_nothing() {
    let source = b";";
    let mut parser_utils = utils(source, vec![token(TokenTypes::ImportEnd, 0, 1), token(TokenTypes::EOF, 1, 1)], 0);
    parse_import(&mut parser_utils);
    assert_eq!(parser_utils.imports.imports, vec!["main".to_string()]);
    assert_eq!(parser_utils.index, 1);
}

#[test]
fn attributes_then_modifiers() {
    let source = b"#[test(5)]\npub fn main() {}";
    let mut parser_utils = utils(source, tokenize(source, 8), 1);
    let mut attributes = Vec::new();
    parse_attribute(&mut parser_utils, &mut attributes);
    assert_eq!(attributes, vec![Attribute::Integer("test".to_string(), 5)]);
    assert_eq!(parser_utils.index, 4);
    assert_eq!(parser_utils.tokens[4].token_type, TokenTypes::ModifiersStart);
    parser_utils.index = 5;
    let mut modifiers = Vec::new();
    parse_modifier(&mut parser_utils, &mut modifiers);
    assert_eq!(modifiers, vec![Modifier::Public]);
    assert_eq!(parser_utils.index, 6);
    assert_eq!(top_action(parser_utils.tokens[6].token_type, &modifiers), TopAction::Function);
}

#[test]
fn attribute_values_by_kind() {
    let texts = ["Priority(High)", "flag(false)", "n(-42)", "basic", "#[Name(v)", "Big(99999999999999999999)", "x(12"];
    let mut buffer = Vec::new();
    let mut tokens = Vec::new();
    for text in texts {
        let start = buffer.len();
        buffer.extend_from_slice(text.as_bytes());
        tokens.push(token(TokenTypes::Attribute, start, buffer.len()));
        buffer.push(b'|');
        tokens.push(token(TokenTypes::AttributeEnd, buffer.len() - 1, buffer.len()));
    }
    tokens.push(token(TokenTypes::EOF, buffer.len(), buffer.len()));
    let mut parser_utils = utils(&buffer, tokens, 0);
    let mut attributes = vec![Attribute::Basic("kept".to_string())];
    parse_attribute(&mut parser_utils, &mut attributes);
    assert_eq!(
        attributes,
        vec![
            Attribute::Basic("kept".to_string()),
            Attribute::String("priority".to_string(), "High".to_string()),
            Attribute::Bool("flag".to_string(), false),
            Attribute::Integer("n".to_string(), -42),
            Attribute::Basic("basic".to_string()),
            Attribute::String("name".to_string(), "v".to_string()),
            Attribute::String("big".to_string(), "99999999999999999999".to_string()),
            Attribute::Integer("x".to_string(), 1),
        ]
    );
    assert_eq!(parser_utils.index, 14);
}

#[test]
fn attribute_reading_stops_at_other_tokens() {
    let source = b"a b";
    let tokens = vec![token(TokenTypes::AttributeStart, 0, 0), token(TokenTypes::Comment, 0, 1), token(TokenTypes::EOF, 3, 3)];
    let mut parser_utils = utils(source, tokens, 0);
    let mut attributes = Vec::new();
    parse_attribute(&mut parser_utils, &mut attributes);
    assert!(attributes.is_empty());
    assert_eq!(parser_utils.index, 1);
}

#[test]
fn every_writable_modifier_is_read() {
    let source = b"pub pub(proj) extern internal;";
    let tokens = vec![
        token(TokenTypes::Modifier, 0, 3),
        token(TokenTypes::Modifier, 3, 13),
        token(TokenTypes::Modifier, 13, 20),
        token(TokenTypes::Modifier, 20, 29),
        token(TokenTypes::LineEnd, 29, 30),
    ];
    let mut parser_utils = utils(source, tokens, 0);
    let mut modifiers = vec![Modifier::Trait];
    parse_modifier(&mut parser_utils, &mut modifiers);
    assert_eq!(
        modifiers,
        vec![Modifier::Trait, Modifier::Public, Modifier::Protected, Modifier::Extern, Modifier::Internal]
    );
    assert_eq!(parser_utils.index, 4);
}

#[test]
fn top_actions() {
    assert_eq!(top_action(TokenTypes::ImportStart, &vec![]), TopAction::Import);
    assert_eq!(top_action(TokenTypes::AttributesStart, &vec![]), TopAction::Attributes);
    assert_eq!(top_action(TokenTypes::ModifiersStart, &vec![]), TopAction::Modifiers);
    assert_eq!(top_action(TokenTypes::StructStart, &vec![]), TopAction::Structure);
    assert_eq!(top_action(TokenTypes::ImplStart, &vec![]), TopAction::Implementation);
    assert_eq!(top_action(TokenTypes::InvalidCharacters, &vec![]), TopAction::Invalid);
    assert_eq!(top_action(TokenTypes::EOF, &vec![]), TopAction::Stop);
    assert_eq!(top_action(TokenTypes::Comment, &vec![]), TopAction::Skip);
    assert_eq!(top_action(TokenTypes::Start, &vec![]), TopAction::Skip);
    assert_eq!(top_action(TokenTypes::TraitStart, &vec![Modifier::Public]), TopAction::Trait);
    assert_eq!(top_action(TokenTypes::TraitStart, &vec![Modifier::Internal]), TopAction::InvalidTrait);
    assert_eq!(top_action(TokenTypes::TraitStart, &vec![Modifier::Public, Modifier::Extern]), TopAction::InvalidTrait);
}

#[test]
fn top_level_of_a_file() {
    let source = b"import a;\n#[test(5)]\npub trait T {}";
    let tokens = tokenize(source, 14);
    assert_eq!(tokens[13].token_type, TokenTypes::EOF);
    let mut parser_utils = utils(source, tokens, 0);
    let mut attributes = Vec::new();
    let mut modifiers = Vec::new();
    let mut actions = Vec::new();
    for _ in 0..4 {
        actions.push(parse_top_token(&mut parser_utils, &mut attributes, &mut modifiers));
    }
    assert_eq!(actions, vec![TopAction::Import, TopAction::Attributes, TopAction::Modifiers, TopAction::Trait]);
    assert_eq!(parser_utils.imports.imports, vec!["main".to_string(), "a".to_string()]);
    assert_eq!(attributes, vec![Attribute::Integer("test".to_string(), 5)]);
    assert_eq!(modifiers, vec![Modifier::Public, Modifier::Trait]);
    assert_eq!(parser_utils.index, 10);

    let packed = get_modifier(&modifiers);
    let mut name = String::new();
    let mut member_attributes = Vec::new();
    let mut member_modifiers = Vec::new();
    loop {
        let event = structure_step(&mut parser_utils, &mut name, &mut member_attributes, &mut member_modifiers, packed);
        if matches!(event, MemberEvent::End) {
            break;
        }
    }
    assert_eq!(name, "T");
    assert_eq!(parser_utils.index, 13);
    let mut attributes = Vec::new();
    let mut modifiers = Vec::new();
    assert_eq!(parse_top_token(&mut parser_utils, &mut attributes, &mut modifiers), TopAction::Stop);
}
