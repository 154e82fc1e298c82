use parser::imports::{ImportManager, ImportNameResolver};
use parser::modifiers::{get_modifier, is_modifier, to_modifiers, writable_modifiers, Attribute, Modifier};
use parser::program::{display, display_parenless, ExpressionType, Loan, ParseState, Span, UnparsedType};
use parser::settings::{CompilerArguments, RunnerSettings};

fn strings(items: &[&str]) -> Vec<String> {
    items.iter().map(|s| s.to_string()).collect()
}

#[test]
fn modifiers_pack_into_bits() {
    assert_eq!(get_modifier(&[Modifier::Public, Modifier::Extern]), 5);
    assert_eq!(get_modifier(&[]), 0);
    assert_eq!(get_modifier(&[Modifier::Trait, Modifier::Internal]), 24);
    assert!(is_modifier(5, Modifier::Extern));
    assert!(is_modifier(5, Modifier::Public));
    assert!(!is_modifier(5, Modifier::Protected));
}

#[test]
fn packed_modifiers_unpack() {
    assert_eq!(to_modifiers(5), vec![Modifier::Public, Modifier::Extern]);
    assert_eq!(to_modifiers(31), vec![Modifier::Public, Modifier::Protected, Modifier::Extern, Modifier::Internal]);
    assert_eq!(to_modifiers(0), vec![]);
    assert_eq!(to_modifiers(16 | 8 | 1), vec![Modifier::Public, Modifier::Internal]);
}

#[test]
fn pack_then_unpack_keeps_writable_bits() {
    for from in 0..=255u8 {
        assert_eq!(get_modifier(&to_modifiers(from)), from & 15);
    }
}

#[test]
fn packed_list_answers_membership() {
    let list = [Modifier::Protected, Modifier::Trait];
    let packed = get_modifier(&list);
    assert_eq!(packed, 18);
    for m in [Modifier::Public, Modifier::Protected, Modifier::Extern, Modifier::Internal, Modifier::Trait] {
        assert_eq!(is_modifier(packed, m), list.contains(&m));
    }
}

#[test]
fn modifier_names_and_bits() {
    assert_eq!(Modifier::Public.name(), "pub");
    assert_eq!(Modifier::Protected.name(), "pub(proj)");
    assert_eq!(Modifier::Extern.name(), "extern");
    assert_eq!(Modifier::Internal.name(), "internal");
    assert_eq!(Modifier::Trait.bits(), 16);
    assert_eq!(writable_modifiers(), [Modifier::Public, Modifier::Protected, Modifier::Extern, Modifier::Internal]);
}

#[test]
fn attributes_are_found_by_name() {
    let attributes = vec![
        Attribute::Basic("inline".to_string()),
        Attribute::Integer("priority".to_string(), 3),
        Attribute::Bool("hot".to_string(), true),
        Attribute::String("doc".to_string(), "text".to_string()),
        Attribute::Integer("priority".to_string(), 9),
    ];
    let found = Attribute::find_attribute("priority", &attributes).unwrap();
    assert_eq!(found.as_int_attribute(), Some(3));
    assert_eq!(found.as_bool_attribute(), None);
    assert!(Attribute::find_attribute("missing", &attributes).is_none());
    let doc = Attribute::find_attribute("doc", &attributes).unwrap();
    assert_eq!(doc.as_string_attribute(), Some(&"text".to_string()));
    assert_eq!(doc.as_int_attribute(), None);
    let hot = Attribute::find_attribute("hot", &attributes).unwrap();
    assert_eq!(hot.as_bool_attribute(), Some(true));
    assert_eq!(hot.as_string_attribute(), None);
}

#[test]
fn lists_are_displayed() {
    assert_eq!(display(&strings(&["a", "b"]), ", "), "(a, b)");
    assert_eq!(display(&strings(&[]), ", "), "()");
    assert_eq!(display(&strings(&["x"]), ", "), "(x)");
    assert_eq!(display_parenless(&strings(&["A", "B", "C"]), " + "), "A + B + C");
    assert_eq!(display_parenless(&strings(&[]), " + "), "");
}

#[test]
fn loans_are_printed() {
    assert_eq!(Loan { mutable: true, target: vec![] }.to_string(), "mut");
    assert_eq!(Loan { mutable: false, target: vec![] }.to_string(), "");
    assert_eq!(Loan { mutable: true, target: strings(&["foo", "bar"]) }.to_string(), "{mut(foo.bar)}");
    assert_eq!(Loan { mutable: false, target: strings(&["x"]) }.to_string(), "{shared(x)}");
}

#[test]
fn span_of_generic_type() {
    let base = UnparsedType::Basic(Span::new(1, 2), "A".to_string());
    let bounds = vec![
        UnparsedType::Basic(Span::new(1, 4), "B".to_string()),
        UnparsedType::Basic(Span::new(1, 6), "C".to_string()),
    ];
    let generic = UnparsedType::Generic(Box::new(base), bounds);
    assert_eq!(generic.get_span(), Span { file: 1, start: 2, end: 7 });
    let lone = UnparsedType::Generic(Box::new(UnparsedType::Basic(Span::new(3, 5), "D".to_string())), vec![]);
    assert_eq!(lone.get_span(), Span { file: 3, start: 5, end: 5 });
}

#[test]
fn spans_extend() {
    let mut span = Span::new(9, 4);
    assert_eq!(span, Span { file: 9, start: 4, end: 4 });
    span.extend_span(12);
    assert_eq!(span, Span { file: 9, start: 4, end: 12 });
    assert_eq!(Span::default(), Span { file: 0, start: 0, end: 0 });
}

#[test]
fn expression_kinds_and_states() {
    assert_ne!(ExpressionType::Break, ExpressionType::Line);
    assert_eq!(ExpressionType::Return(Span::new(0, 1)), ExpressionType::Return(Span::new(0, 1)));
    assert_ne!(ParseState::ControlVariable, ParseState::ControlOperator);
    assert_eq!(ParseState::NoState, ParseState::NoState);
}

#[test]
fn imports_resolve_full_names() {
    let mut manager = ImportManager::new("main".to_string());
    assert_eq!(manager.code_block_id, 0);
    assert_eq!(manager.get_full("Vec".to_string()), "Vec");
    manager.imports.push(("Vec".to_string(), "std::Vec".to_string()));
    manager.imports.push(("Map".to_string(), "std::Map".to_string()));
    assert_eq!(manager.get_full("Vec".to_string()), "std::Vec");
    assert_eq!(manager.get_full("Map".to_string()), "std::Map");
    assert_eq!(manager.get_full("Set".to_string()), "Set");
}

#[test]
fn name_resolver_imports_its_file() {
    let resolver = ImportNameResolver::new("math".to_string());
    assert_eq!(resolver.imports, vec!["math".to_string()]);
    assert!(resolver.generics.is_empty());
    assert!(resolver.parent.is_none());
    assert_eq!(resolver.last_id, 0);
}

fn settings(compiler: &str) -> RunnerSettings {
    RunnerSettings {
        compiler_arguments: CompilerArguments {
            compiler: compiler.to_string(),
            target: "main::main".to_string(),
            temp_folder: "target".to_string(),
        },
    }
}

#[test]
fn llvm_includes_references() {
    assert!(settings("llvm").include_references());
    assert!(settings("LLVM").include_references());
    assert_eq!(settings("LlVm").checked_include_references(), Some(true));
}

#[test]
fn unknown_compiler_is_refused() {
    assert_eq!(settings("jvm").checked_include_references(), None);
    assert_eq!(settings("").checked_include_references(), None);
}

#[test]
fn unpacking_packed_list_keeps_writable_modifiers() {
    assert_eq!(
        to_modifiers(get_modifier(&[Modifier::Extern, Modifier::Public, Modifier::Trait])),
        vec![Modifier::Public, Modifier::Extern]
    );
    assert_eq!(to_modifiers(get_modifier(&[Modifier::Internal])), vec![Modifier::Internal]);
}

#[test]
fn resolver_finds_generic_bounds() {
    let mut resolver = ImportNameResolver::new("math".to_string());
    resolver.generics.push(("T".to_string(), vec![UnparsedType::Basic(Span::new(2, 4), "Add".to_string())]));
    resolver.generics.push(("U".to_string(), vec![]));
    let bounds = resolver.generic(&"T".to_string()).unwrap();
    assert_eq!(bounds.len(), 1);
    match &bounds[0] {
        UnparsedType::Basic(span, name) => {
            assert_eq!(name, "Add");
            assert_eq!(*span, Span::new(2, 4));
        }
        UnparsedType::Generic(_, _) => panic!("expected a basic type"),
    }
    assert_eq!(resolver.generic(&"U".to_string()).map(|b| b.len()), Some(0));
    assert!(resolver.generic(&"V".to_string()).is_none());
}

#[test]
fn unpacked_modifiers_are_ordered_and_pack_back() {
    for x in 0..=255u8 {
        let list = to_modifiers(x);
        assert_eq!(get_modifier(&list), x & 15);
        for i in 1..list.len() {
            let rank = |m: Modifier| writable_modifiers().iter().position(|w| *w == m).unwrap();
            assert!(rank(list[i - 1]) < rank(list[i]));
        }
    }
    let ordered = vec![Modifier::Protected, Modifier::Internal];
    assert_eq!(to_modifiers(get_modifier(&ordered)), ordered);
}
