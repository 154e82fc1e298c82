use parser::program::Loan;
use parser::type_relation::{recursive_eq, TypeWaiter};
use parser::types::{base_name_of, copy_type, FinalizedStruct, FinalizedTypes};

fn structure(name: &str, modifiers: u8) -> FinalizedTypes {
    FinalizedTypes::Struct(FinalizedStruct { name: name.to_string(), modifiers })
}

fn generic(name: &str, bounds: Vec<FinalizedTypes>) -> FinalizedTypes {
    FinalizedTypes::Generic(name.to_string(), bounds)
}

fn generic_type(base: FinalizedTypes, arguments: Vec<FinalizedTypes>) -> FinalizedTypes {
    FinalizedTypes::GenericType(Box::new(base), arguments)
}

fn reference(inner: FinalizedTypes) -> FinalizedTypes {
    FinalizedTypes::Reference(Box::new(inner), Loan { mutable: false, target: vec![] })
}

fn struct_name(t: &FinalizedTypes) -> String {
    match t {
        FinalizedTypes::Struct(found) => found.name.clone(),
        _ => panic!("not a structure"),
    }
}

#[test]
fn base_names_stop_at_the_dollar() {
    assert_eq!(base_name_of("List$3"), vec!['L', 'i', 's', 't']);
    assert_eq!(base_name_of("List"), vec!['L', 'i', 's', 't']);
    assert_eq!(base_name_of("$x"), Vec::<char>::new());
}

#[test]
fn structures_of_the_same_base_are_equal() {
    assert!(recursive_eq(&structure("List", 0), &structure("List$2", 0)));
    assert!(!recursive_eq(&structure("List", 0), &structure("Map", 0)));
    assert!(recursive_eq(&reference(structure("List", 0)), &structure("List", 0)));
    assert!(recursive_eq(&generic("T", vec![]), &generic("T", vec![structure("A", 0)])));
    assert!(!recursive_eq(&generic("T", vec![]), &structure("T", 0)));
    let a = generic_type(structure("List", 0), vec![structure("A", 0)]);
    let b = generic_type(structure("List", 0), vec![structure("A$1", 0)]);
    let c = generic_type(structure("List", 0), vec![structure("B", 0)]);
    assert!(recursive_eq(&a, &b));
    assert!(!recursive_eq(&a, &c));
}

#[test]
fn structure_against_structure() {
    let a = structure("A", 0);
    assert!(matches!(a.of_type_sync(&structure("A$1", 0), true), (true, None)));
    assert!(matches!(a.of_type_sync(&structure("B", 0), true), (false, None)));
    let show = structure("Show", 16);
    match a.of_type_sync(&show, true) {
        (false, Some(TypeWaiter::Implements(current, other))) => {
            assert_eq!(struct_name(&current), "A");
            assert_eq!(struct_name(&other), "Show");
        }
        _ => panic!("expected a wait for the implementation"),
    }
    assert!(matches!(a.of_type_sync(&show, false), (false, None)));
}

#[test]
fn structure_against_generics_and_references() {
    let a = structure("A", 0);
    assert!(matches!(a.of_type_sync(&generic("T", vec![structure("A", 0)]), true), (true, None)));
    assert!(matches!(a.of_type_sync(&generic("T", vec![]), true), (true, None)));
    assert!(matches!(a.of_type_sync(&generic("T", vec![structure("B", 0)]), true), (false, None)));
    match a.of_type_sync(&generic("T", vec![structure("A", 0), structure("Show", 16)]), true) {
        (false, Some(TypeWaiter::All(list))) => {
            assert_eq!(list.len(), 1);
            assert!(matches!(&list[0], TypeWaiter::Implements(_, _)));
        }
        _ => panic!("expected a wait on the trait bound"),
    }
    assert!(matches!(a.of_type_sync(&reference(structure("A", 0)), true), (true, None)));
    assert!(matches!(reference(structure("A", 0)).of_type_sync(&a, true), (true, None)));
    assert!(matches!(a.of_type_sync(&generic_type(structure("A", 0), vec![]), true), (true, None)));
}

#[test]
fn generic_types_against_each_other() {
    let list_a = generic_type(structure("List", 0), vec![structure("A", 0)]);
    assert!(matches!(list_a.of_type_sync(&generic_type(structure("List", 0), vec![structure("A", 0)]), true), (true, None)));
    assert!(matches!(
        list_a.of_type_sync(&generic_type(structure("List", 0), vec![structure("A", 0), structure("B", 0)]), true),
        (false, None)
    ));
    assert!(matches!(list_a.of_type_sync(&generic_type(structure("List", 0), vec![structure("B", 0)]), true), (false, None)));
    match list_a.of_type_sync(&generic_type(structure("Iterable", 16), vec![structure("A", 0)]), false) {
        (false, Some(TypeWaiter::HasImpl(base, _))) => {
            assert!(recursive_eq(&base, &list_a));
        }
        _ => panic!("expected a wait for an implementation"),
    }
    assert!(matches!(list_a.of_type_sync(&structure("List$1", 0), true), (true, None)));
}

#[test]
fn generics_against_types() {
    assert!(matches!(generic("T", vec![]).of_type_sync(&structure("A", 0), true), (true, None)));
    assert!(matches!(generic("T", vec![structure("A", 0)]).of_type_sync(&structure("A", 0), true), (true, None)));
    assert!(matches!(generic("T", vec![structure("B", 0)]).of_type_sync(&structure("A", 0), true), (false, None)));
    let t = generic("T", vec![structure("A", 0)]);
    assert!(matches!(t.of_type_sync(&generic("U", vec![structure("A", 0)]), true), (true, None)));
    assert!(matches!(t.of_type_sync(&generic("U", vec![structure("B", 0)]), true), (false, None)));
    assert!(matches!(generic("T", vec![]).of_type_sync(&generic("U", vec![structure("B", 0)]), true), (true, None)));
}

#[test]
fn copies_keep_the_type() {
    let t = reference(generic_type(structure("List$4", 16), vec![generic("T", vec![structure("A", 0)])]));
    let copy = copy_type(&t);
    assert!(recursive_eq(&t, &copy));
    assert!(matches!(copy, FinalizedTypes::Reference(_, _)));
}

#[test]
fn every_type_is_of_itself() {
    let samples = vec![
        structure("Show", 16),
        generic("T", vec![structure("Show", 16), structure("A", 0)]),
        generic("T", vec![]),
        generic_type(structure("List", 0), vec![generic("T", vec![structure("Show", 16)])]),
        reference(generic_type(structure("Map$2", 0), vec![structure("A", 0), reference(structure("B", 0))])),
    ];
    for t in &samples {
        assert!(recursive_eq(t, t));
        assert!(matches!(t.of_type_sync(t, true), (true, None)));
        assert!(matches!(t.of_type_sync(&copy_type(t), false), (true, None)));
    }
}

#[test]
fn type_equality_is_an_equivalence_and_ignores_references() {
    let a = generic_type(structure("List", 0), vec![structure("A$1", 0)]);
    let b = reference(generic_type(structure("List$2", 0), vec![reference(structure("A", 0))]));
    let c = generic_type(reference(structure("List$3", 0)), vec![structure("A$9", 0)]);
    assert!(recursive_eq(&a, &b) && recursive_eq(&b, &a));
    assert!(recursive_eq(&b, &c) && recursive_eq(&a, &c));
    let d = generic_type(structure("List", 0), vec![structure("B", 0)]);
    assert!(!recursive_eq(&a, &d) && !recursive_eq(&d, &a));
    let through = reference(structure("A", 0)).of_type_sync(&reference(structure("Show", 16)), true);
    assert!(matches!(through, (false, Some(TypeWaiter::Implements(_, _)))));
    let direct = structure("A", 0).of_type_sync(&structure("Show", 16), true);
    assert!(matches!(direct, (false, Some(TypeWaiter::Implements(_, _)))));
}
