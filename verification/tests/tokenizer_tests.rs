use parser::tokenizer::{Tokenizer, TokenizerState};
use parser::token_util::parse_modifier;
use parser::tokens::{Token, TokenTypes};

fn tokenize(source: &[u8], limit: usize) -> Vec<Token> {
    let mut tokenizer = Tokenizer::new(source);
    let mut tokens = Vec::new();
    while tokens.len() < limit {
        match tokenizer.try_next() {
            Some(token) => {
                tokens.push(token);
                if token.token_type == TokenTypes::EOF {
                    break;
                }
            }
            None => break,
        }
    }
    tokens
}

#[test]
fn import_statement_tokens() {
    let source = b"import test;";
    let tokens = tokenize(source, 10);
    let types: Vec<TokenTypes> = tokens.iter().map(|t| t.token_type).collect();
    assert_eq!(types, vec![TokenTypes::ImportStart, TokenTypes::Identifier, TokenTypes::ImportEnd, TokenTypes::EOF]);
    assert_eq!((tokens[0].start_offset, tokens[0].end_offset), (0, 6));
    assert_eq!((tokens[1].start_offset, tokens[1].end_offset), (6, 11));
    assert_eq!(tokens[1].to_string(source), "test");
    assert_eq!((tokens[2].start_offset, tokens[2].end_offset), (11, 12));
    assert_eq!((tokens[3].start_offset, tokens[3].end_offset), (12, 12));
    assert_eq!(tokens[1].end, (1, 11));
}

#[test]
fn attribute_and_function_header_tokens() {
    let source = b"#[test(5)]\npub fn main() {}";
    let tokens = tokenize(source, 8);
    let types: Vec<TokenTypes> = tokens.iter().map(|t| t.token_type).collect();
    assert_eq!(
        types,
        vec![
            TokenTypes::AttributesStart,
            TokenTypes::AttributeStart,
            TokenTypes::Attribute,
            TokenTypes::AttributeEnd,
            TokenTypes::ModifiersStart,
            TokenTypes::Modifier,
            TokenTypes::FunctionStart,
            TokenTypes::Identifier,
        ]
    );
    assert_eq!(tokens[2].to_string(source), "test(5)");
    assert_eq!(tokens[5].to_string(source), "pub");
    assert_eq!(tokens[5].end, (2, 3));
    assert_eq!(tokens[7].to_string(source), "main");
    assert_eq!(tokens[7].end_offset, 22);
}

#[test]
fn tokens_follow_each_other() {
    let source = b"#[test(5)]\npub fn main() {}";
    let tokens = tokenize(source, 8);
    for pair in tokens.windows(2) {
        assert_eq!(pair[1].start_offset, pair[0].end_offset);
        assert_eq!(pair[1].start, pair[0].end);
    }
}

#[test]
fn empty_source_is_eof() {
    let source = b"";
    let mut tokenizer = Tokenizer::new(source);
    let token = tokenizer.next();
    assert_eq!(token.token_type, TokenTypes::EOF);
    assert_eq!((token.start_offset, token.end_offset), (0, 0));
    assert_eq!(tokenizer.last.token_type, TokenTypes::EOF);
}

#[test]
fn line_comment_is_one_token() {
    let source = b"// note\nimport a;";
    let mut tokenizer = Tokenizer::new(source);
    let token = tokenizer.next();
    assert_eq!(token.token_type, TokenTypes::Comment);
    assert_eq!(token.end_offset, 7);
    assert_eq!(token.end, (1, 7));
    assert_eq!(tokenizer.index, 7);
}

#[test]
fn new_tokenizer_starts_at_the_top() {
    let source = b"fn";
    let tokenizer = Tokenizer::new(source);
    assert_eq!(tokenizer.state, TokenizerState::TOP_ELEMENT);
    assert_eq!(tokenizer.index, 0);
    assert_eq!(tokenizer.line, 1);
    assert_eq!(tokenizer.len, 2);
    assert_eq!(tokenizer.last.token_type, TokenTypes::Start);
}

#[test]
fn matches_restores_on_failure() {
    let source = b"  import x;";
    let mut tokenizer = Tokenizer::new(source);
    assert!(!tokenizer.matches("impx"));
    assert_eq!(tokenizer.index, 0);
    assert!(tokenizer.matches("import"));
    assert_eq!(tokenizer.index, 8);
}

#[test]
fn matches_word_needs_a_word_end() {
    let source = b"implement";
    let mut tokenizer = Tokenizer::new(source);
    assert!(!tokenizer.matches_word("impl"));
    assert_eq!(tokenizer.index, 0);
    let source = b"impl x";
    let mut tokenizer = Tokenizer::new(source);
    assert!(tokenizer.matches_word("impl"));
    assert_eq!(tokenizer.index, 4);
}

#[test]
fn next_included_skips_blanks_and_counts_lines() {
    let source = b" \n\tx";
    let mut tokenizer = Tokenizer::new(source);
    match tokenizer.next_included() {
        Ok(found) => assert_eq!(found, b'x'),
        Err(_) => panic!("expected a character"),
    }
    assert_eq!(tokenizer.line, 2);
    assert_eq!(tokenizer.line_index, 2);
    assert_eq!(tokenizer.index, 4);
    match tokenizer.next_included() {
        Err(token) => assert_eq!(token.token_type, TokenTypes::EOF),
        Ok(_) => panic!("expected the end of the file"),
    }
}

#[test]
fn load_restores_serialized_position() {
    let source = b"import test;";
    let mut tokenizer = Tokenizer::new(source);
    let saved = tokenizer.serialize();
    let before = tokenizer;
    tokenizer.next();
    tokenizer.next();
    assert_ne!(tokenizer.index, before.index);
    tokenizer.load(&saved);
    assert_eq!(tokenizer.index, before.index);
    assert_eq!(tokenizer.state, before.state);
    assert_eq!(tokenizer.line, before.line);
    assert_eq!(tokenizer.line_index, before.line_index);
    assert_eq!(tokenizer.last.token_type, before.last.token_type);
    assert_eq!(tokenizer.last.end_offset, before.last.end_offset);
}

#[test]
fn parse_to_line_end_stops_before_newline() {
    let source = b"abc\ndef";
    let mut tokenizer = Tokenizer::new(source);
    let token = tokenizer.parse_to_line_end(TokenTypes::Comment);
    assert_eq!(token.token_type, TokenTypes::Comment);
    assert_eq!(tokenizer.index, 3);
    assert_eq!(token.end_offset, 3);
    assert_eq!(token.end, (1, 3));
    assert_eq!(token.to_string(source), "abc");
}

#[test]
fn parse_to_line_end_at_end_is_eof() {
    let source = b"";
    let mut tokenizer = Tokenizer::new(source);
    let token = tokenizer.parse_to_line_end(TokenTypes::Comment);
    assert_eq!(token.token_type, TokenTypes::EOF);
}

#[test]
fn parse_to_first_stops_at_either() {
    let source = b"name(x)";
    let mut tokenizer = Tokenizer::new(source);
    let token = tokenizer.parse_to_first(TokenTypes::Identifier, b'<', b'(');
    assert_eq!(token.end_offset, 4);
    assert_eq!(tokenizer.index, 4);
    assert_eq!(token.to_string(source), "name");
}

#[test]
fn handle_invalid_reads_the_line() {
    let source = b"??\nok";
    let mut tokenizer = Tokenizer::new(source);
    let token = tokenizer.handle_invalid();
    assert_eq!(token.token_type, TokenTypes::InvalidCharacters);
    assert_eq!(tokenizer.index, 2);
    assert_eq!(token.end_offset, 2);
    assert_eq!(token.to_string(source), "??");
}

#[test]
fn line_end_tokenizers_agree() {
    let source = b"x = 1 ?? 2\nnext";
    let mut first = Tokenizer::new(source);
    let mut second = Tokenizer::new(source);
    first.index = 6;
    second.index = 6;
    let invalid = first.handle_invalid();
    let to_end = second.parse_to_line_end(TokenTypes::InvalidCharacters);
    assert_eq!(invalid.token_type, to_end.token_type);
    assert_eq!((invalid.start, invalid.end), (to_end.start, to_end.end));
    assert_eq!((invalid.start_offset, invalid.end_offset), (to_end.start_offset, to_end.end_offset));
    assert_eq!(first.index, second.index);
    assert_eq!(first.index, 10);
    assert_eq!(invalid.to_string(source), "x = 1 ?? 2");
    let mut third = Tokenizer::new(source);
    third.index = 6;
    let comment = third.parse_to_line_end(TokenTypes::Comment);
    assert_eq!(comment.token_type, TokenTypes::Comment);
    assert_eq!((comment.start_offset, comment.end_offset), (invalid.start_offset, invalid.end_offset));
    assert_eq!(third.index, first.index);
}

#[test]
fn modifier_takes_the_longest_text() {
    let source = b"pub(proj) fn f() {}";
    let mut tokenizer = Tokenizer::new(source);
    let token = parse_modifier(&mut tokenizer).unwrap();
    assert_eq!(token.token_type, TokenTypes::Modifier);
    assert_eq!(token.to_string(source), "pub(proj)");
    assert_eq!(tokenizer.index, 9);
    let mut plain = Tokenizer::new(b"pub fn f() {}");
    let token = parse_modifier(&mut plain).unwrap();
    assert_eq!(token.end_offset, 3);
    let mut none = Tokenizer::new(b"fn f() {}");
    assert!(parse_modifier(&mut none).is_none());
    assert_eq!(none.index, 0);
}

#[test]
fn protected_function_header_tokens() {
    let source = b"pub(proj) fn f() {}";
    let tokens = tokenize(source, 6);
    let types: Vec<TokenTypes> = tokens.iter().map(|t| t.token_type).collect();
    let at = types.iter().position(|t| *t == TokenTypes::Modifier).unwrap();
    assert_eq!(types.iter().filter(|t| **t == TokenTypes::Modifier).count(), 1);
    assert_eq!(tokens[at].to_string(source), "pub(proj)");
    assert_eq!(types[at + 1], TokenTypes::FunctionStart);
}

#[test]
fn make_token_spans_from_last_token() {
    let source = b"import test;";
    let mut tokenizer = Tokenizer::new(source);
    tokenizer.next();
    tokenizer.index = 11;
    let token = tokenizer.make_token(TokenTypes::Identifier);
    assert_eq!(token.start_offset, 6);
    assert_eq!(token.end_offset, 11);
    assert_eq!(token.start, (1, 6));
    assert_eq!(token.end, (1, 11));
}

#[test]
fn byte_classes() {
    assert!(parser::tokenizer::is_ascii_alphabetic(b'q'));
    assert!(parser::tokenizer::is_ascii_alphabetic(b'Z'));
    assert!(!parser::tokenizer::is_ascii_alphabetic(b'1'));
    assert!(parser::tokenizer::is_digit(b'7'));
    assert!(!parser::tokenizer::is_digit(b'a'));
}

#[test]
fn function_with_generics_tokens() {
    let source = b"fn f<T: A>() {}";
    let tokens = tokenize(source, 20);
    let types: Vec<TokenTypes> = tokens.iter().map(|t| t.token_type).collect();
    assert_eq!(
        types,
        vec![
            TokenTypes::AttributesStart,
            TokenTypes::ModifiersStart,
            TokenTypes::FunctionStart,
            TokenTypes::Identifier,
            TokenTypes::GenericsStart,
            TokenTypes::Generic,
            TokenTypes::GenericBound,
            TokenTypes::GenericsEnd,
            TokenTypes::ArgumentsStart,
            TokenTypes::ArgumentsEnd,
            TokenTypes::CodeStart,
            TokenTypes::CodeEnd,
            TokenTypes::EOF,
        ]
    );
    assert_eq!(tokens[3].to_string(source), "f");
    assert_eq!(tokens[5].to_string(source), "T");
    assert_eq!(tokens[6].to_string(source), ": A");
    assert_eq!((tokens[10].start_offset, tokens[10].end_offset), (12, 14));
    assert_eq!((tokens[11].start_offset, tokens[11].end_offset), (14, 15));
}

#[test]
fn code_tokens() {
    let source = b"let x = 12.5;";
    let mut tokenizer = Tokenizer::new(source);
    tokenizer.state = TokenizerState::CODE;
    let mut tokens = Vec::new();
    for _ in 0..6 {
        tokens.push(tokenizer.next());
    }
    let types: Vec<TokenTypes> = tokens.iter().map(|t| t.token_type).collect();
    assert_eq!(
        types,
        vec![
            TokenTypes::Let,
            TokenTypes::Variable,
            TokenTypes::Equals,
            TokenTypes::Float,
            TokenTypes::LineEnd,
            TokenTypes::EOF,
        ]
    );
    assert_eq!(tokens[1].to_string(source), "x");
    assert_eq!(tokens[3].to_string(source), "12.5");
    assert_eq!((tokens[3].start_offset, tokens[3].end_offset), (7, 12));
}

#[test]
fn string_tokens() {
    let source = b"\"hi\\n\" ;";
    let mut tokenizer = Tokenizer::new(source);
    tokenizer.state = TokenizerState::CODE;
    let start = tokenizer.next();
    assert_eq!(start.token_type, TokenTypes::StringStart);
    assert_eq!(tokenizer.state, TokenizerState::STRING);
    let escape = tokenizer.next();
    assert_eq!(escape.token_type, TokenTypes::StringEscape);
    assert_eq!((escape.start_offset, escape.end_offset), (1, 5));
    let end = tokenizer.next();
    assert_eq!(end.token_type, TokenTypes::StringEnd);
    assert_eq!(tokenizer.state, TokenizerState::CODE);
    let line_end = tokenizer.next();
    assert_eq!(line_end.token_type, TokenTypes::LineEnd);
    assert_eq!(line_end.end_offset, 8);
}

#[test]
fn whole_source_tokenizes_to_end_of_file() {
    let source = b"import test;";
    let tokens = parser::tokenizer::tokenize(source).unwrap();
    let types: Vec<TokenTypes> = tokens.iter().map(|t| t.token_type).collect();
    assert_eq!(types, vec![TokenTypes::ImportStart, TokenTypes::Identifier, TokenTypes::ImportEnd, TokenTypes::EOF]);
    let stepped = tokenize(source, 100);
    assert_eq!(stepped.len(), tokens.len());
    for (a, b) in stepped.iter().zip(tokens.iter()) {
        assert_eq!((a.token_type, a.start_offset, a.end_offset), (b.token_type, b.start_offset, b.end_offset));
    }
    for pair in tokens.windows(2) {
        assert_eq!(pair[1].start_offset, pair[0].end_offset);
        assert_eq!(pair[1].start, pair[0].end);
    }
    assert_eq!((tokens[0].start_offset, tokens[0].start), (0, (1, 0)));
    assert_eq!(tokens.iter().filter(|t| t.token_type == TokenTypes::EOF).count(), 1);
    let empty = parser::tokenizer::tokenize(b"").unwrap();
    assert_eq!(empty.len(), 1);
    assert_eq!(empty[0].token_type, TokenTypes::EOF);
}
