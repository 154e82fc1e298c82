use parser::code::{
    create_do_while, create_for, create_if, create_while, number_text, CodeBody, EffectType, Effects, Expression,
};
use parser::program::{ExpressionType, Span};

fn span(start: usize) -> Span {
    Span { file: 1, start, end: start }
}

fn load(name: &str, at: usize) -> Effects {
    Effects { types: EffectType::LoadVariable(name.to_string()), span: span(at) }
}

fn body(label: &str, lines: Vec<Effects>) -> CodeBody {
    CodeBody {
        label: label.to_string(),
        expressions: lines.into_iter().map(|effect| Expression { expression_type: ExpressionType::Line, effect }).collect(),
    }
}

fn show(e: &Effects) -> String {
    match &e.types {
        EffectType::LoadVariable(name) => name.clone(),
        EffectType::Jump(label) => format!("jump {}", label),
        EffectType::CompareJump(test, yes, no) => format!("if {} {} else {}", show(test), yes, no),
        EffectType::CreateVariable(name, value) => format!("let {} = {}", name, show(value)),
        EffectType::ImplementationCall(calling, traits, method, args, _) => {
            format!("{}.{}::{}({})", show(calling), traits, method, args.len())
        }
        EffectType::CodeBody(b) => {
            let lines: Vec<String> = b.expressions.iter().map(|l| show(&l.effect)).collect();
            format!("{}{{{}}}", b.label, lines.join("; "))
        }
        _ => "?".to_string(),
    }
}

#[test]
fn numbers_as_text() {
    assert_eq!(number_text(0), "0");
    assert_eq!(number_text(7), "7");
    assert_eq!(number_text(10), "10");
    assert_eq!(number_text(4294967295), "4294967295");
}

#[test]
fn while_loops_test_then_jump_back() {
    let r = create_while(load("go", 3), body("b", vec![load("x", 5)]), 4);
    assert_eq!(show(&r), "4{if go b else 4end; b{x; jump 4}}");
    assert_eq!(r.span, span(3));
}

#[test]
fn do_while_loops_run_then_test() {
    let r = create_do_while(load("go", 2), body("b", vec![load("x", 5)]), 6);
    assert_eq!(show(&r), "6{b{x; jump 5end}; if go b else 6end}");
}

#[test]
fn for_loops_iterate() {
    let r = create_for("item".to_string(), load("list", 1), body("b", vec![load("item", 5)]), 8);
    assert_eq!(
        show(&r),
        "8{let $iter8 = list; jump 9; 9{if $iter8.iter::Iter::has_next(0) b else 8end}; b{let item = $iter8.iter::Iter::next(0); item; jump 9}}"
    );
}

#[test]
fn if_without_else() {
    let r = create_if(load("c", 1), body("t", vec![load("x", 2)]), vec![], None, 3);
    assert_eq!(show(&r), "3{if c t else 3end; t{x; jump 3end}}");
}

#[test]
fn if_with_else() {
    let r = create_if(load("c", 1), body("t", vec![]), vec![], Some(body("e", vec![load("y", 4)])), 3);
    assert_eq!(show(&r), "3{if c t else e; t{jump 3end}; e{y; jump 3end; jump e}}");
}

#[test]
fn if_with_else_ifs() {
    let r = create_if(
        load("c", 1),
        body("t", vec![]),
        vec![(load("d", 5), body("u", vec![])), (load("f", 7), body("v", vec![]))],
        None,
        3,
    );
    assert_eq!(
        show(&r),
        "3{if c t else 5; t{jump 3end}; 5{if f v else 4; v{jump 3end}; 4{if d u else 3; u{jump 3end}; 3{}}; jump 5}}"
    );
}
