use parser::parse_info::ParseInfo;
use parser::parse_util::{
    find_if_first, parse_field, parse_fields, parse_generic, parse_generics, parse_generics_vec, parse_struct_fields,
    FieldError,
};

fn pair(name: &str, bounds: &[&str]) -> (String, Vec<String>) {
    (name.to_string(), bounds.iter().map(|b| b.to_string()).collect())
}

#[test]
fn find_if_first_reads_only_before_the_second() {
    let mut parsing = ParseInfo::new(b"a, b)");
    assert_eq!(find_if_first(&mut parsing, b',', b')'), Some("a".to_string()));
    let index = parsing.index;
    assert_eq!(find_if_first(&mut parsing, b',', b')'), None);
    assert_eq!(parsing.index, index);
    assert_eq!(parsing.parse_to(b')'), Some("b".to_string()));
}

#[test]
fn generic_with_bounds() {
    assert_eq!(parse_generic("T: A + B".to_string()), pair("T", &["A", "B"]));
    assert_eq!(parse_generic("T".to_string()), pair("T", &[]));
    assert_eq!(parse_generic("T:A:B".to_string()), pair("T", &["A"]));
    assert_eq!(parse_generic("T:".to_string()), pair("T", &[""]));
}

#[test]
fn generics_list_in_order() {
    let mut parsing = ParseInfo::new(b"T: A, U>");
    let mut generics = Vec::new();
    parse_generics_vec(&mut parsing, &mut generics);
    assert_eq!(generics, vec![pair("T", &["A"]), pair("U", &[])]);
    assert_eq!(parsing.index, 8);
}

#[test]
fn generics_map_keeps_the_last_of_a_name() {
    let mut parsing = ParseInfo::new(b"T: A, U, T: B + C>");
    let mut generics = Vec::new();
    parse_generics(&mut parsing, &mut generics);
    assert_eq!(generics, vec![pair("T", &["B", "C"]), pair("U", &[])]);
}

#[test]
fn field_with_type() {
    assert_eq!(parse_field(&None, "a:int".to_string()), Ok(("a".to_string(), "int".to_string())));
    assert_eq!(parse_field(&None, "a: in t".to_string()), Ok(("a".to_string(), "int".to_string())));
}

#[test]
fn field_errors() {
    assert_eq!(parse_field(&None, "x".to_string()), Err(FieldError::MissingType));
    assert_eq!(parse_field(&None, "x:Foo)".to_string()), Err(FieldError::MissingType));
    assert_eq!(parse_field(&None, "self:Foo)".to_string()), Err(FieldError::SelfOutsideStruct));
    assert_eq!(
        parse_field(&Some("Bar".to_string()), "self:Foo)".to_string()),
        Ok(("self".to_string(), "Bar".to_string()))
    );
    assert_eq!(FieldError::MissingType.message(), "Missing type for field.");
    assert_eq!(FieldError::SelfOutsideStruct.message(), "Cannot have self outside of struct!");
}

#[test]
fn fields_of_a_function() {
    let mut parsing = ParseInfo::new(b"a: int, b: str) {");
    let fields = parse_fields(None, &mut parsing);
    assert_eq!(fields, Ok(vec![("a".to_string(), "int".to_string()), ("b".to_string(), "str".to_string())]));
    assert_eq!(parsing.index, 15);
}

#[test]
fn no_fields() {
    let mut parsing = ParseInfo::new(b")");
    assert_eq!(parse_fields(None, &mut parsing), Ok(vec![]));
}

#[test]
fn field_error_stops_the_fields() {
    let mut parsing = ParseInfo::new(b"x, y: int)");
    assert_eq!(parse_fields(None, &mut parsing), Err(FieldError::MissingType));
    let mut parsing = ParseInfo::new(b"self: Self)");
    assert_eq!(parse_fields(Some("Point".to_string()), &mut parsing), Ok(vec![("self".to_string(), "Self".to_string())]));
}

#[test]
fn struct_fields_read_nothing() {
    parse_struct_fields();
}
