//! The code of a function as effects: single pieces of code strung together into lines.
use vstd::prelude::*;

use crate::program::{ExpressionType, Span, UnparsedType};
use crate::text::push_char;
use vstd::string::StringExecFns;
use crate::type_parser::{type_view, type_views, TypeView};

verus! {

/// Effects are single pieces of code which are strung together to make an expression.
/// For example, a single method call, creating a variable, setting a variable, etc... are all effects.
pub struct Effects {
    /// The type of the effect
    pub types: EffectType,
    /// The span of the effect
    pub span: Span,
}

/// The type of the effect, storing all per-effect data
pub enum EffectType {
    /// A placeholder of no operation, which should be resolved before finalizing.
    NOP,
    /// An effect wrapped in parenthesis, just a wrapper around the effect to prevent issues with operator merging.
    Paren(Box<Effects>),
    /// Creates a variable with the given name and value.
    CreateVariable(String, Box<Effects>),
    /// Label of jumping to body
    Jump(String),
    /// Comparison effect, and label to jump to the first if true, second if false
    CompareJump(Box<Effects>, String, String),
    /// A block of code inside the block of code.
    CodeBody(CodeBody),
    /// Finds the implementation of the given trait for the given calling type, and calls the given method.
    /// Calling, trait to call, function name, args, and return type (if explicitly required)
    ImplementationCall(Box<Effects>, String, String, Vec<Effects>, Option<UnparsedType>),
    /// Finds the method with the name and calls it with those arguments.
    /// Calling, calling function, function arguments, and the explicit generic arguments
    MethodCall(Option<Box<Effects>>, String, Vec<Effects>, Vec<UnparsedType>),
    /// Sets the variable to a value.
    Assign(Box<Effects>, Box<Effects>),
    /// Loads variable with the given name.
    LoadVariable(String),
    /// Loads a field with the given name from the program.
    Load(Box<Effects>, String),
    /// An unresolved operation, sent to the checker to resolve, with the given arguments.
    Operation(String, Vec<Effects>),
    /// Struct to create and a tuple of the name of the field and the argument.
    CreateStruct(UnparsedType, Vec<(String, Effects)>),
    /// Creates an array of the given effects.
    CreateArray(Vec<Effects>),
    /// A float, as the text it is written with
    Float(String),
    /// An integer
    Int(i64),
    /// An unsigned integer
    UInt(u64),
    /// A boolean
    Bool(bool),
    /// A character
    Char(char),
    /// A string
    Text(String),
}

/// An expression is a single line of code, containing an effect and the type of expression.
pub struct Expression {
    /// The expression type
    pub expression_type: ExpressionType,
    /// The contained code
    pub effect: Effects,
}

/// A body of code: a unique label, used for jumps, and its lines.
pub struct CodeBody {
    /// A unique label for this code body, never shown to the user but used by the compiler for jumps
    pub label: String,
    /// The code in this code body
    pub expressions: Vec<Expression>,
}

/// An effect as values.
pub struct EffectView {
    /// What the effect does
    pub kind: KindView,
    /// Where it was written
    pub span: Span,
}

/// The type of an effect as values.
pub enum KindView {
    Nop,
    Paren(Box<EffectView>),
    CreateVariable(Seq<char>, Box<EffectView>),
    Jump(Seq<char>),
    CompareJump(Box<EffectView>, Seq<char>, Seq<char>),
    CodeBody(BodyView),
    ImplementationCall(Box<EffectView>, Seq<char>, Seq<char>, Seq<EffectView>, Option<TypeView>),
    MethodCall(Option<Box<EffectView>>, Seq<char>, Seq<EffectView>, Seq<TypeView>),
    Assign(Box<EffectView>, Box<EffectView>),
    LoadVariable(Seq<char>),
    Load(Box<EffectView>, Seq<char>),
    Operation(Seq<char>, Seq<EffectView>),
    CreateStruct(TypeView, Seq<(Seq<char>, EffectView)>),
    CreateArray(Seq<EffectView>),
    Float(Seq<char>),
    Int(i64),
    UInt(u64),
    Bool(bool),
    Char(char),
    Text(Seq<char>),
}

/// A body of code as values: its label and its lines, each a type and an effect.
pub struct BodyView {
    /// The label
    pub label: Seq<char>,
    /// The lines
    pub lines: Seq<(ExpressionType, EffectView)>,
}

/// The effect standing in for a missing one in a list of values.
pub open spec fn no_effect() -> EffectView {
    EffectView { kind: KindView::Nop, span: Span { file: 0, start: 0, end: 0 } }
}

/// An effect as values.
pub open spec fn effect_view(e: Effects) -> EffectView
    decreases e, 2nat,
{
    EffectView { kind: kind_view(e.types), span: e.span }
}

/// A list of effects as values.
pub open spec fn effect_views(list: Seq<Effects>) -> Seq<EffectView> {
    Seq::new(list.len(), |k: int| effect_view(list[k]))
}

/// A body of code as values.
pub open spec fn body_view(b: CodeBody) -> BodyView
    decreases b, 1nat,
{
    BodyView {
        label: b.label@,
        lines: Seq::new(
            b.expressions@.len(),
            |k: int|
                if 0 <= k < b.expressions@.len() {
                    (b.expressions@[k].expression_type, effect_view(b.expressions@[k].effect))
                } else {
                    (ExpressionType::Line, no_effect())
                },
        ),
    }
}

/// The type of an effect as values.
pub open spec fn kind_view(k: EffectType) -> KindView
    decreases k, 0nat,
{
    match k {
        EffectType::NOP => KindView::Nop,
        EffectType::Paren(inner) => KindView::Paren(Box::new(effect_view(*inner))),
        EffectType::CreateVariable(name, value) => KindView::CreateVariable(name@, Box::new(effect_view(*value))),
        EffectType::Jump(label) => KindView::Jump(label@),
        EffectType::CompareJump(test, yes, no) => KindView::CompareJump(Box::new(effect_view(*test)), yes@, no@),
        EffectType::CodeBody(body) => KindView::CodeBody(body_view(body)),
        EffectType::ImplementationCall(calling, traits, method, args, returning) => KindView::ImplementationCall(
            Box::new(effect_view(*calling)),
            traits@,
            method@,
            Seq::new(args@.len(), |i: int| if 0 <= i < args@.len() { effect_view(args@[i]) } else { no_effect() }),
            match returning {
                Some(t) => Some(type_view(t)),
                None => None,
            },
        ),
        EffectType::MethodCall(calling, method, args, generics) => KindView::MethodCall(
            match calling {
                Some(c) => Some(Box::new(effect_view(*c))),
                None => None,
            },
            method@,
            Seq::new(args@.len(), |i: int| if 0 <= i < args@.len() { effect_view(args@[i]) } else { no_effect() }),
            type_views(generics@),
        ),
        EffectType::Assign(target, value) => KindView::Assign(Box::new(effect_view(*target)), Box::new(effect_view(*value))),
        EffectType::LoadVariable(name) => KindView::LoadVariable(name@),
        EffectType::Load(from, name) => KindView::Load(Box::new(effect_view(*from)), name@),
        EffectType::Operation(text, args) => KindView::Operation(
            text@,
            Seq::new(args@.len(), |i: int| if 0 <= i < args@.len() { effect_view(args@[i]) } else { no_effect() }),
        ),
        EffectType::CreateStruct(t, fields) => KindView::CreateStruct(
            type_view(t),
            Seq::new(
                fields@.len(),
                |i: int|
                    if 0 <= i < fields@.len() {
                        (fields@[i].0@, effect_view(fields@[i].1))
                    } else {
                        (Seq::empty(), no_effect())
                    },
            ),
        ),
        EffectType::CreateArray(items) => KindView::CreateArray(
            Seq::new(items@.len(), |i: int| if 0 <= i < items@.len() { effect_view(items@[i]) } else { no_effect() }),
        ),
        EffectType::Float(text) => KindView::Float(text@),
        EffectType::Int(v) => KindView::Int(v),
        EffectType::UInt(v) => KindView::UInt(v),
        EffectType::Bool(v) => KindView::Bool(v),
        EffectType::Char(v) => KindView::Char(v),
        EffectType::Text(text) => KindView::Text(text@),
    }
}

/// The decimal digits of a number, as `to_string` writes it.
pub open spec fn decimal(n: nat) -> Seq<char>
    decreases n,
{
    if n < 10 {
        seq![(48 + n) as char]
    } else {
        decimal(n / 10).push((48 + n % 10) as char)
    }
}

/// Adds the decimal digits of a number to a text.
pub fn push_decimal(text: &mut String, n: u32)
    ensures
        final(text)@ == old(text)@ + decimal(n as nat),
    decreases n,
{
    if n >= 10 {
        push_decimal(text, n / 10);
    }
    let digit = (48 + (n % 10) as u8) as char;
    proof {
        assert(digit == (48 + (n % 10) as nat) as char);
    }
    let ghost before = text@;
    push_char(text, digit);
    proof {
        if n >= 10 {
            assert(text@ =~= old(text)@ + decimal(n as nat));
        } else {
            assert(text@ =~= old(text)@ + decimal(n as nat));
        }
    }
}

/// A number written in decimal, as `u32::to_string` does.
pub fn number_text(n: u32) -> (text: String)
    ensures
        text@ == decimal(n as nat),
{
    let mut text = String::new();
    push_decimal(&mut text, n);
    proof {
        assert(Seq::<char>::empty() + decimal(n as nat) =~= decimal(n as nat));
    }
    text
}

/// A call of a method, on a value where there is one, with its arguments and explicit
/// generic arguments.
pub fn method_call(
    calling: Option<Effects>,
    name: String,
    args: Vec<Effects>,
    generics: Vec<UnparsedType>,
    span: Span,
) -> (r: Effects)
    ensures
        effect_view(r) == (EffectView {
            kind: KindView::MethodCall(
                match calling {
                    Some(c) => Some(Box::new(effect_view(c))),
                    None => None,
                },
                name@,
                effect_views(args@),
                type_views(generics@),
            ),
            span,
        }),
{
    let boxed = match calling {
        Some(c) => Some(Box::new(c)),
        None => None,
    };
    let r = Effects { types: EffectType::MethodCall(boxed, name, args, generics), span };
    proof {
        match effect_view(r).kind {
            KindView::MethodCall(_, _, list, _) => {
                assert(list =~= effect_views(args@));
            },
            _ => {},
        }
    }
    r
}

/// A plain line of an effect.
pub open spec fn line_of(e: EffectView) -> (ExpressionType, EffectView) {
    (ExpressionType::Line, e)
}

/// An effect that jumps to a label.
pub open spec fn jump_view(label: Seq<char>, span: Span) -> EffectView {
    EffectView { kind: KindView::Jump(label), span }
}

/// A body of code as an effect.
pub open spec fn code_view(body: BodyView, span: Span) -> EffectView {
    EffectView { kind: KindView::CodeBody(body), span }
}

/// A body with a plain line added at its end.
pub open spec fn body_with(body: BodyView, e: EffectView) -> BodyView {
    BodyView { label: body.label, lines: body.lines.push(line_of(e)) }
}

/// The label of the end of the block labelled with a number.
pub open spec fn end_label(id: nat) -> Seq<char> {
    decimal(id) + seq!['e', 'n', 'd']
}

/// A `while` loop as blocks and jumps: a block labelled with the id first tests the
/// condition, going on to the body or to the end; the body jumps back to the test.
/// The added effects carry the condition's span.
pub open spec fn while_view(condition: EffectView, body: BodyView, id: nat) -> EffectView {
    let span = condition.span;
    code_view(
        BodyView {
            label: decimal(id),
            lines: seq![
                line_of(EffectView { kind: KindView::CompareJump(Box::new(condition), body.label, end_label(id)), span }),
                line_of(code_view(body_with(body, jump_view(decimal(id), span)), span)),
            ],
        },
        span,
    )
}

/// A `do`-`while` loop as blocks and jumps: the body, which then jumps to the end of the
/// block before it (labelled with the id less one), followed by the test of the
/// condition, going back to the body or to the end. The added effects carry the
/// condition's span.
pub open spec fn do_while_view(condition: EffectView, body: BodyView, id: nat) -> EffectView {
    let span = condition.span;
    code_view(
        BodyView {
            label: decimal(id),
            lines: seq![
                line_of(code_view(body_with(body, jump_view(end_label((id - 1) as nat), span)), span)),
                line_of(EffectView { kind: KindView::CompareJump(Box::new(condition), body.label, end_label(id)), span }),
            ],
        },
        span,
    )
}

/// The name of the variable that holds the iterator of the `for` loop with an id.
pub open spec fn iterator_name(id: nat) -> Seq<char> {
    seq!['$', 'i', 't', 'e', 'r'] + decimal(id)
}

/// A call of a method of the iterator trait on the loop's iterator.
pub open spec fn iterator_call(id: nat, method: Seq<char>, span: Span) -> EffectView {
    EffectView {
        kind: KindView::ImplementationCall(
            Box::new(EffectView { kind: KindView::LoadVariable(iterator_name(id)), span }),
            "iter::Iter"@,
            method,
            Seq::empty(),
            None,
        ),
        span,
    }
}

/// A `for` loop as blocks and jumps: the iterator is stored, then a jump to the check
/// (labelled with the id plus one), which goes on to the body while the iterator has a
/// next item and to the end otherwise; the body first takes the next item into the loop
/// variable and ends with a jump back to the check. The added effects carry the span of
/// the iterated effect.
pub open spec fn for_view(name: Seq<char>, iterated: EffectView, body: BodyView, id: nat) -> EffectView {
    let span = iterated.span;
    let next = line_of(
        EffectView { kind: KindView::CreateVariable(name, Box::new(iterator_call(id, "next"@, span))), span },
    );
    let looped = BodyView {
        label: body.label,
        lines: seq![next] + body.lines.push(line_of(jump_view(decimal(id + 1), span))),
    };
    let check = BodyView {
        label: decimal(id + 1),
        lines: seq![
            line_of(
                EffectView {
                    kind: KindView::CompareJump(Box::new(iterator_call(id, "has_next"@, span)), body.label, end_label(id)),
                    span,
                },
            ),
        ],
    };
    code_view(
        BodyView {
            label: decimal(id),
            lines: seq![
                line_of(EffectView { kind: KindView::CreateVariable(iterator_name(id), Box::new(iterated)), span }),
                line_of(jump_view(decimal(id + 1), span)),
                line_of(code_view(check, span)),
                line_of(code_view(looped, span)),
            ],
        },
        span,
    )
}

/// A plain line of an effect.
fn line(effect: Effects) -> (r: Expression)
    ensures
        r.expression_type == ExpressionType::Line,
        r.effect == effect,
{
    Expression { expression_type: ExpressionType::Line, effect }
}

/// The lines of a list as values.
pub open spec fn line_views(lines: Seq<Expression>) -> Seq<(ExpressionType, EffectView)> {
    Seq::new(lines.len(), |k: int| (lines[k].expression_type, effect_view(lines[k].effect)))
}

pub proof fn lemma_body_view(body: CodeBody)
    ensures
        body_view(body) == (BodyView { label: body.label@, lines: line_views(body.expressions@) }),
{
    assert(body_view(body).lines =~= line_views(body.expressions@));
}

/// Adds a plain line to the end of a body.
fn push_line(body: &mut CodeBody, effect: Effects)
    ensures
        body_view(*final(body)) == body_with(body_view(*old(body)), effect_view(effect)),
{
    proof {
        lemma_body_view(*body);
    }
    body.expressions.push(line(effect));
    proof {
        lemma_body_view(*body);
        assert(line_views(body.expressions@) =~= line_views(old(body).expressions@).push(
            line_of(effect_view(effect)),
        ));
    }
}

/// The label of the end of the block labelled with a number.
fn end_text(id: u32) -> (r: String)
    ensures
        r@ == end_label(id as nat),
{
    let mut text = number_text(id);
    text.append("end");
    proof {
        reveal_strlit("end");
    }
    text
}

/// A body of code from its label and lines.
fn block(label: String, lines: Vec<Expression>, span: Span) -> (r: Effects)
    ensures
        effect_view(r) == code_view(BodyView { label: label@, lines: line_views(lines@) }, span),
{
    let body = CodeBody { label, expressions: lines };
    proof {
        lemma_body_view(body);
    }
    Effects { types: EffectType::CodeBody(body), span }
}

/// Lowers a `while` loop into blocks and jumps (see `while_view`).
pub fn create_while(effect: Effects, body: CodeBody, id: u32) -> (r: Effects)
    ensures
        effect_view(r) == while_view(effect_view(effect), body_view(body), id as nat),
{
    let span = effect.span;
    let ghost condition = effect_view(effect);
    let ghost old_body = body_view(body);
    let mut body = body;
    let label = body.label.clone();
    let test = Effects { types: EffectType::CompareJump(Box::new(effect), label, end_text(id)), span };
    push_line(&mut body, Effects { types: EffectType::Jump(number_text(id)), span });
    let ghost looped = body_view(body);
    let mut top: Vec<Expression> = Vec::new();
    top.push(line(test));
    top.push(line(Effects { types: EffectType::CodeBody(body), span }));
    let r = block(number_text(id), top, span);
    proof {
        assert(line_views(top@) =~= seq![
            line_of(EffectView { kind: KindView::CompareJump(Box::new(condition), old_body.label, end_label(id as nat)), span }),
            line_of(code_view(looped, span)),
        ]);
    }
    r
}

/// Lowers a `do`-`while` loop into blocks and jumps (see `do_while_view`).
pub fn create_do_while(effect: Effects, body: CodeBody, id: u32) -> (r: Effects)
    requires
        id >= 1,
    ensures
        effect_view(r) == do_while_view(effect_view(effect), body_view(body), id as nat),
{
    let span = effect.span;
    let ghost condition = effect_view(effect);
    let ghost old_body = body_view(body);
    let mut body = body;
    let label = body.label.clone();
    push_line(&mut body, Effects { types: EffectType::Jump(end_text(id - 1)), span });
    let ghost looped = body_view(body);
    let mut top: Vec<Expression> = Vec::new();
    top.push(line(Effects { types: EffectType::CodeBody(body), span }));
    top.push(line(Effects { types: EffectType::CompareJump(Box::new(effect), label, end_text(id)), span }));
    let r = block(number_text(id), top, span);
    proof {
        assert(line_views(top@) =~= seq![
            line_of(code_view(looped, span)),
            line_of(EffectView { kind: KindView::CompareJump(Box::new(condition), old_body.label, end_label(id as nat)), span }),
        ]);
    }
    r
}

/// An owned copy of a text.
fn text_of(s: &str) -> (r: String)
    ensures
        r@ == s@,
{
    let mut text = String::new();
    text.append(s);
    proof {
        assert(Seq::<char>::empty() + s@ =~= s@);
    }
    text
}

/// A call of a method of the iterator trait on the iterator variable.
fn iterator_call_effect(variable: &String, method: &str, span: Span) -> (r: Effects)
    ensures
        effect_view(r) == (EffectView {
            kind: KindView::ImplementationCall(
                Box::new(EffectView { kind: KindView::LoadVariable(variable@), span }),
                "iter::Iter"@,
                method@,
                Seq::empty(),
                None,
            ),
            span,
        }),
{
    let args: Vec<Effects> = Vec::new();
    let ghost arg_list = args;
    let r = Effects {
        types: EffectType::ImplementationCall(
            Box::new(Effects { types: EffectType::LoadVariable(variable.clone()), span }),
            text_of("iter::Iter"),
            text_of(method),
            args,
            None,
        ),
        span,
    };
    proof {
        reveal_strlit("iter::Iter");
        let list = Seq::new(
            arg_list@.len(),
            |i: int| if 0 <= i < arg_list@.len() { effect_view(arg_list@[i]) } else { no_effect() },
        );
        assert(list =~= Seq::<EffectView>::empty());
        let ghost gr = r;
        match gr.types {
            EffectType::ImplementationCall(calling, traits, name, given, returning) => {
                assert(effect_view(*calling) == EffectView { kind: KindView::LoadVariable(variable@), span });
                assert(traits@ == "iter::Iter"@);
                assert(name@ == method@);
                assert(given == arg_list);
                assert(returning is None);
                match kind_view(gr.types) {
                    KindView::ImplementationCall(_, _, _, l, _) => {
                        assert(l =~= Seq::<EffectView>::empty());
                    },
                    _ => {},
                }
                assert(kind_view(gr.types) == KindView::ImplementationCall(
                    Box::new(EffectView { kind: KindView::LoadVariable(variable@), span }),
                    "iter::Iter"@,
                    method@,
                    Seq::<EffectView>::empty(),
                    None,
                ));
            },
            _ => {},
        }
    }
    r
}

/// Lowers a `for` loop into blocks and jumps (see `for_view`).
pub fn create_for(name: String, effect: Effects, body: CodeBody, id: u32) -> (r: Effects)
    requires
        id < u32::MAX,
    ensures
        effect_view(r) == for_view(name@, effect_view(effect), body_view(body), id as nat),
{
    proof {
        reveal_strlit("$iter");
        reveal_strlit("next");
        reveal_strlit("has_next");
    }
    let span = effect.span;
    let ghost iterated = effect_view(effect);
    let ghost old_body = body_view(body);
    let mut variable = text_of("$iter");
    push_decimal(&mut variable, id);
    proof {
        assert(variable@ =~= iterator_name(id as nat));
    }
    let mut body = body;
    let label = body.label.clone();
    proof {
        lemma_body_view(body);
    }
    let next = iterator_call_effect(&variable, "next", span);
    let ghost before = body.expressions@;
    let ghost next_view = effect_view(next);
    let ghost loop_name = name@;
    body.expressions.insert(0, line(Effects { types: EffectType::CreateVariable(name, Box::new(next)), span }));
    proof {
        lemma_body_view(body);
        assert(line_views(body.expressions@) =~= seq![
            line_of(EffectView { kind: KindView::CreateVariable(loop_name, Box::new(next_view)), span }),
        ] + line_views(before));
    }
    let ghost inserted = body_view(body);
    push_line(&mut body, Effects { types: EffectType::Jump(number_text(id + 1)), span });
    let ghost looped = body_view(body);
    let has_next = iterator_call_effect(&variable, "has_next", span);
    let mut checks: Vec<Expression> = Vec::new();
    checks.push(line(Effects { types: EffectType::CompareJump(Box::new(has_next), label, end_text(id)), span }));
    let check = block(number_text(id + 1), checks, span);
    let mut top: Vec<Expression> = Vec::new();
    top.push(line(Effects { types: EffectType::CreateVariable(variable, Box::new(effect)), span }));
    top.push(line(Effects { types: EffectType::Jump(number_text(id + 1)), span }));
    top.push(line(check));
    top.push(line(Effects { types: EffectType::CodeBody(body), span }));
    let r = block(number_text(id), top, span);
    proof {
        let next_line = line_of(
            EffectView {
                kind: KindView::CreateVariable(loop_name, Box::new(iterator_call(id as nat, "next"@, span))),
                span,
            },
        );
        assert(looped.lines =~= seq![next_line] + old_body.lines.push(line_of(jump_view(decimal(id as nat + 1), span))));
        assert(looped == BodyView {
            label: old_body.label,
            lines: seq![next_line] + old_body.lines.push(line_of(jump_view(decimal(id as nat + 1), span))),
        });
        assert(line_views(checks@) =~= seq![
            line_of(
                EffectView {
                    kind: KindView::CompareJump(
                        Box::new(iterator_call(id as nat, "has_next"@, span)),
                        old_body.label,
                        end_label(id as nat),
                    ),
                    span,
                },
            ),
        ]);
        assert(line_views(top@) =~= seq![
            line_of(EffectView { kind: KindView::CreateVariable(iterator_name(id as nat), Box::new(iterated)), span }),
            line_of(jump_view(decimal(id as nat + 1), span)),
            line_of(effect_view(check)),
            line_of(code_view(looped, span)),
        ]);
    }
    r
}

/// A list of conditions with their bodies as values.
pub open spec fn branch_views(list: Seq<(Effects, CodeBody)>) -> Seq<(EffectView, BodyView)> {
    Seq::new(list.len(), |k: int| (effect_view(list[k].0), body_view(list[k].1)))
}

/// An optional body as values.
pub open spec fn opt_body_view(b: Option<CodeBody>) -> Option<BodyView> {
    match b {
        Some(body) => Some(body_view(body)),
        None => None,
    }
}

/// The `else` branch with the `else if` branches folded into it, the first innermost: each
/// becomes a block (labelled with the id plus one, plus two, and so on) that tests its
/// condition, going on to its body, which then jumps to the end, or to the branch folded
/// before it, which follows. The added effects carry the span of the branch's condition.
pub open spec fn else_chain(base: Option<BodyView>, else_ifs: Seq<(EffectView, BodyView)>, id: nat) -> Option<BodyView>
    decreases else_ifs.len(),
{
    if else_ifs.len() == 0 {
        base
    } else {
        let inner = else_chain(base, else_ifs.drop_last(), id);
        let (condition, body) = else_ifs.last();
        let prev = inner->0;
        let span = condition.span;
        Some(
            BodyView {
                label: decimal((id + else_ifs.len()) as nat),
                lines: seq![
                    line_of(EffectView { kind: KindView::CompareJump(Box::new(condition), body.label, prev.label), span }),
                    line_of(code_view(body_with(body, jump_view(end_label(id), span)), span)),
                    line_of(code_view(prev, span)),
                ],
            },
        )
    }
}

/// An `if` statement as blocks and jumps, in a block labelled with the id: the condition
/// is tested, going on to the body or to the `else` branch (to the end where there is
/// none); the body then jumps to the end. The `else` body, also ending with a jump to the
/// end, is an empty block labelled with the id where only `else if` branches exist, and
/// takes the `else if` branches folded in (see `else_chain`); it follows the body and
/// starts with a jump to its own label. The added effects carry the condition's span.
pub open spec fn if_view(
    condition: EffectView,
    body: BodyView,
    else_ifs: Seq<(EffectView, BodyView)>,
    else_body: Option<BodyView>,
    id: nat,
) -> EffectView {
    let span = condition.span;
    let base = match else_body {
        Some(b) => Some(body_with(b, jump_view(end_label(id), span))),
        None => if else_ifs.len() > 0 {
            Some(BodyView { label: decimal(id), lines: Seq::empty() })
        } else {
            None
        },
    };
    let chain = else_chain(base, else_ifs, id);
    let jumping = match chain {
        Some(e) => e.label,
        None => end_label(id),
    };
    let head = seq![
        line_of(EffectView { kind: KindView::CompareJump(Box::new(condition), body.label, jumping), span }),
        line_of(code_view(body_with(body, jump_view(end_label(id), span)), span)),
    ];
    code_view(
        BodyView {
            label: decimal(id),
            lines: match chain {
                Some(e) => head.push(line_of(code_view(body_with(e, jump_view(e.label, span)), span))),
                None => head,
            },
        },
        span,
    )
}

/// Lowers an `if` statement with its `else if` and `else` branches into blocks and jumps
/// (see `if_view`).
pub fn create_if(
    effect: Effects,
    body: CodeBody,
    else_ifs: Vec<(Effects, CodeBody)>,
    else_body: Option<CodeBody>,
    id: u32,
) -> (r: Effects)
    requires
        id + 1 + else_ifs@.len() <= u32::MAX,
    ensures
        effect_view(r) == if_view(
            effect_view(effect),
            body_view(body),
            branch_views(else_ifs@),
            opt_body_view(else_body),
            id as nat,
        ),
{
    let span = effect.span;
    let ghost condition = effect_view(effect);
    let ghost branches = branch_views(else_ifs@);
    let ghost all = else_ifs@;
    let mut else_ifs = else_ifs;
    let mut else_body = match else_body {
        Some(mut b) => {
            push_line(&mut b, Effects { types: EffectType::Jump(end_text(id)), span });
            Some(b)
        },
        None => if else_ifs.len() > 0 {
            let empty: Vec<Expression> = Vec::new();
            let b = CodeBody { label: number_text(id), expressions: empty };
            proof {
                lemma_body_view(b);
                assert(line_views(empty@) =~= Seq::empty());
            }
            Some(b)
        } else {
            None
        },
    };
    let ghost base = opt_body_view(else_body);
    let mut temp = id + 1;
    let mut k: usize = 0;
    proof {
        assert(branches.take(0) =~= Seq::<(EffectView, BodyView)>::empty());
        assert(all.skip(0) =~= all);
    }
    while else_ifs.len() > 0
        invariant
            k <= all.len(),
            else_ifs@ == all.skip(k as int),
            branches == branch_views(all),
            temp == id + 1 + k,
            id + 1 + all.len() <= u32::MAX,
            opt_body_view(else_body) == else_chain(base, branches.take(k as int), id as nat),
            all.len() > 0 ==> else_body is Some,
        decreases else_ifs@.len(),
    {
        let (c, mut b) = else_ifs.remove(0);
        proof {
            assert(all.skip(k as int)[0] == all[k as int]);
            assert(else_ifs@ =~= all.skip(k + 1));
            assert(branches.take(k + 1).drop_last() =~= branches.take(k as int));
            assert(branches.take(k + 1).last() == branches[k as int]);
        }
        let cspan = c.span;
        let ghost c_view = effect_view(c);
        let ghost b_view = body_view(b);
        let prev = else_body.unwrap();
        let ghost prev_view = body_view(prev);
        let b_label = b.label.clone();
        let prev_label = prev.label.clone();
        push_line(&mut b, Effects { types: EffectType::Jump(end_text(id)), span: cspan });
        let ghost b_done = body_view(b);
        let mut lines: Vec<Expression> = Vec::new();
        lines.push(line(Effects { types: EffectType::CompareJump(Box::new(c), b_label, prev_label), span: cspan }));
        lines.push(line(Effects { types: EffectType::CodeBody(b), span: cspan }));
        lines.push(line(Effects { types: EffectType::CodeBody(prev), span: cspan }));
        let inner = CodeBody { label: number_text(temp), expressions: lines };
        proof {
            lemma_body_view(inner);
            assert(line_views(lines@) =~= seq![
                line_of(EffectView { kind: KindView::CompareJump(Box::new(c_view), b_view.label, prev_view.label), span: cspan }),
                line_of(code_view(b_done, cspan)),
                line_of(code_view(prev_view, cspan)),
            ]);
        }
        else_body = Some(inner);
        temp += 1;
        k += 1;
    }
    proof {
        assert(branches.take(k as int) =~= branches);
    }
    let ghost chain = opt_body_view(else_body);
    let ghost old_body = body_view(body);
    let jumping = match else_body {
        Some(ref mut e) => {
            let l = e.label.clone();
            push_line(e, Effects { types: EffectType::Jump(e.label.clone()), span });
            l
        },
        None => end_text(id),
    };
    let mut body = body;
    let label = body.label.clone();
    push_line(&mut body, Effects { types: EffectType::Jump(end_text(id)), span });
    let ghost done_body = body_view(body);
    let mut top: Vec<Expression> = Vec::new();
    top.push(line(Effects { types: EffectType::CompareJump(Box::new(effect), label, jumping), span }));
    top.push(line(Effects { types: EffectType::CodeBody(body), span }));
    let ghost head = top@;
    match else_body {
        Some(e) => {
            top.push(line(Effects { types: EffectType::CodeBody(e), span }));
        },
        None => {},
    }
    let r = block(number_text(id), top, span);
    proof {
        let jumped = match chain {
            Some(e) => e.label,
            None => end_label(id as nat),
        };
        let head_view = seq![
            line_of(EffectView { kind: KindView::CompareJump(Box::new(condition), old_body.label, jumped), span }),
            line_of(code_view(done_body, span)),
        ];
        assert(line_views(head) =~= head_view);
        match chain {
            Some(e) => {
                assert(line_views(top@) =~= head_view.push(line_of(code_view(body_with(e, jump_view(e.label, span)), span))));
            },
            None => {
                assert(line_views(top@) =~= head_view);
            },
        }
    }
    r
}

/// The first block of code among `lines` that carries `label`.
pub open spec fn block_labelled(lines: Seq<(ExpressionType, EffectView)>, label: Seq<char>) -> Option<BodyView>
    decreases lines.len(),
{
    if lines.len() == 0 {
        None
    } else {
        match lines[0].1.kind {
            KindView::CodeBody(b) => if b.label == label {
                Some(b)
            } else {
                block_labelled(lines.drop_first(), label)
            },
            _ => block_labelled(lines.drop_first(), label),
        }
    }
}

/// Where control goes in a block that starts with a test when the test fails: the block
/// among its lines that carries the label jumped to on failure.
pub open spec fn when_false(b: BodyView) -> Option<BodyView> {
    if b.lines.len() == 0 {
        None
    } else {
        match b.lines[0].1.kind {
            KindView::CompareJump(_, _, otherwise) => block_labelled(b.lines, otherwise),
            _ => None,
        }
    }
}

/// The condition that a block starting with a test tests.
pub open spec fn tested(b: BodyView) -> Option<EffectView> {
    if b.lines.len() == 0 {
        None
    } else {
        match b.lines[0].1.kind {
            KindView::CompareJump(condition, _, _) => Some(*condition),
            _ => None,
        }
    }
}

/// Where control goes in a block that starts with a test when the test passes: the block
/// among its lines that carries the label jumped to on success.
pub open spec fn when_true(b: BodyView) -> Option<BodyView> {
    if b.lines.len() == 0 {
        None
    } else {
        match b.lines[0].1.kind {
            KindView::CompareJump(_, passed, _) => block_labelled(b.lines, passed),
            _ => None,
        }
    }
}

/// The block reached from `b` when `n` tests in a row fail.
pub open spec fn after_failed_tests(b: BodyView, n: nat) -> Option<BodyView>
    decreases n,
{
    if n == 0 {
        Some(b)
    } else {
        match when_false(b) {
            Some(c) => after_failed_tests(c, (n - 1) as nat),
            None => None,
        }
    }
}

/// Whether no body run on a passed test carries the label of a block that a failed test
/// goes to: the `else` body's label or the number of one of the `else if` blocks.
pub open spec fn branch_labels_apart(
    body: BodyView,
    else_ifs: Seq<(EffectView, BodyView)>,
    otherwise: Seq<char>,
    id: nat,
) -> bool {
    &&& body.label != otherwise
    &&& forall|m: nat| id < m <= id + else_ifs.len() ==> body.label != #[trigger] decimal(m)
    &&& forall|k: int| 0 <= k < else_ifs.len() ==> (#[trigger] else_ifs[k]).1.label != otherwise
    &&& forall|k: int, m: nat|
        0 <= k < else_ifs.len() && id < m <= id + else_ifs.len() ==> (#[trigger] else_ifs[k]).1.label
            != #[trigger] decimal(m)
}

proof fn lemma_block_labelled_push(lines: Seq<(ExpressionType, EffectView)>, x: (ExpressionType, EffectView), label: Seq<char>)
    requires
        !(x.1.kind is CodeBody),
    ensures
        block_labelled(lines.push(x), label) == block_labelled(lines, label),
    decreases lines.len(),
{
    let pushed = lines.push(x);
    if lines.len() == 0 {
        assert(pushed.drop_first() =~= Seq::<(ExpressionType, EffectView)>::empty());
        assert(block_labelled(pushed.drop_first(), label) is None);
        assert(pushed[0] == x);
    } else {
        assert(pushed.drop_first() =~= lines.drop_first().push(x));
        assert(pushed[0] == lines[0]);
        lemma_block_labelled_push(lines.drop_first(), x, label);
    }
}

proof fn lemma_when_false_with(b: BodyView, e: EffectView)
    requires
        b.lines.len() > 0,
        !(e.kind is CodeBody),
    ensures
        when_false(body_with(b, e)) == when_false(b),
{
    let x = line_of(e);
    assert(body_with(b, e).lines[0] == b.lines[0]);
    match b.lines[0].1.kind {
        KindView::CompareJump(_, _, otherwise) => {
            lemma_block_labelled_push(b.lines, x, otherwise);
        },
        _ => {},
    }
}

proof fn lemma_chain_reaches_base(base: BodyView, else_ifs: Seq<(EffectView, BodyView)>, id: nat)
    requires
        forall|k: int| 0 <= k < else_ifs.len() ==> (#[trigger] else_ifs[k]).1.label != base.label,
        forall|k: int, m: nat|
            0 <= k < else_ifs.len() && id < m <= id + else_ifs.len() ==> (#[trigger] else_ifs[k]).1.label
                != #[trigger] decimal(m),
    ensures
        else_chain(Some(base), else_ifs, id) is Some,
        else_ifs.len() == 0 ==> else_chain(Some(base), else_ifs, id) == Some(base),
        else_ifs.len() > 0 ==> else_chain(Some(base), else_ifs, id)->0.label == decimal((id + else_ifs.len()) as nat),
        else_ifs.len() > 0 ==> else_chain(Some(base), else_ifs, id)->0.lines.len() == 3,
        after_failed_tests(else_chain(Some(base), else_ifs, id)->0, else_ifs.len()) == Some(base),
        else_ifs.len() > 0 ==> when_false(else_chain(Some(base), else_ifs, id)->0) == else_chain(
            Some(base),
            else_ifs.drop_last(),
            id,
        ),
        else_ifs.len() > 0 ==> tested(else_chain(Some(base), else_ifs, id)->0) == Some(else_ifs.last().0),
        else_ifs.len() > 0 ==> when_true(else_chain(Some(base), else_ifs, id)->0) == Some(
            body_with(else_ifs.last().1, jump_view(end_label(id), else_ifs.last().0.span)),
        ),
    decreases else_ifs.len(),
{
    let n = else_ifs.len();
    if n > 0 {
        let rest = else_ifs.drop_last();
        assert forall|k: int, m: nat| 0 <= k < rest.len() && id < m <= id + rest.len() implies (
        #[trigger] rest[k]).1.label != #[trigger] decimal(m) by {
            assert(rest[k] == else_ifs[k]);
        }
        assert forall|k: int| 0 <= k < rest.len() implies (#[trigger] rest[k]).1.label != base.label by {
            assert(rest[k] == else_ifs[k]);
        }
        lemma_chain_reaches_base(base, rest, id);
        let prev = else_chain(Some(base), rest, id)->0;
        let (condition, body) = else_ifs.last();
        let span = condition.span;
        let chain = else_chain(Some(base), else_ifs, id)->0;
        if rest.len() > 0 {
            assert(else_ifs[n - 1].1.label != decimal((id + rest.len()) as nat));
        } else {
            assert(else_ifs[n - 1].1.label != base.label);
        }
        assert(body.label != prev.label);
        let lines = chain.lines;
        assert(lines[0].1.kind == KindView::CompareJump(Box::new(condition), body.label, prev.label));
        assert(lines.drop_first()[0] == lines[1]);
        assert(lines.drop_first().drop_first()[0] == lines[2]);
        assert(lines[1].1.kind == KindView::CodeBody(body_with(body, jump_view(end_label(id), span))));
        assert(lines[2].1.kind == KindView::CodeBody(prev));
        assert(block_labelled(lines.drop_first().drop_first(), prev.label) == Some(prev));
        assert(block_labelled(lines.drop_first(), prev.label) == Some(prev));
        assert(block_labelled(lines, prev.label) == Some(prev));
        assert(when_false(chain) == Some(prev));
        assert(block_labelled(lines.drop_first(), body.label) == Some(body_with(body, jump_view(end_label(id), span))));
    }
}

proof fn lemma_chain_prefix(base: BodyView, else_ifs: Seq<(EffectView, BodyView)>, id: nat, m: int)
    requires
        1 <= m <= else_ifs.len(),
        forall|k: int| 0 <= k < else_ifs.len() ==> (#[trigger] else_ifs[k]).1.label != base.label,
        forall|k: int, j: nat|
            0 <= k < else_ifs.len() && id < j <= id + else_ifs.len() ==> (#[trigger] else_ifs[k]).1.label
                != #[trigger] decimal(j),
    ensures
        after_failed_tests(else_chain(Some(base), else_ifs, id)->0, (else_ifs.len() - m) as nat) == else_chain(
            Some(base),
            else_ifs.take(m),
            id,
        ),
    decreases else_ifs.len(),
{
    let n = else_ifs.len();
    lemma_chain_reaches_base(base, else_ifs, id);
    if m == n {
        assert(else_ifs.take(m) =~= else_ifs);
    } else {
        let rest = else_ifs.drop_last();
        assert forall|k: int, j: nat| 0 <= k < rest.len() && id < j <= id + rest.len() implies (
        #[trigger] rest[k]).1.label != #[trigger] decimal(j) by {
            assert(rest[k] == else_ifs[k]);
        }
        assert forall|k: int| 0 <= k < rest.len() implies (#[trigger] rest[k]).1.label != base.label by {
            assert(rest[k] == else_ifs[k]);
        }
        lemma_chain_prefix(base, rest, id, m);
        lemma_chain_reaches_base(base, rest, id);
        assert(rest.take(m) =~= else_ifs.take(m));
    }
}

/// Law: in a lowered `if` with an `else` body, the block reached when the condition and
/// every `else if` condition fail, one after another, is the `else` body: its label, its
/// lines, then a jump to the end of the `if`, whatever the number of `else if` branches.
/// This holds where no body run on a passed test carries the label of a block that a
/// failed test goes to.
pub proof fn law_if_else_reached(
    condition: EffectView,
    body: BodyView,
    else_ifs: Seq<(EffectView, BodyView)>,
    else_body: BodyView,
    id: nat,
)
    requires
        branch_labels_apart(body, else_ifs, else_body.label, id),
    ensures
        ({
            let lowered = if_view(condition, body, else_ifs, Some(else_body), id);
            &&& lowered.kind is CodeBody
            &&& after_failed_tests(lowered.kind->CodeBody_0, (else_ifs.len() + 1) as nat) matches Some(reached)
                && reached.label == else_body.label && reached.lines.take(else_body.lines.len() + 1int)
                == else_body.lines.push(line_of(jump_view(end_label(id), condition.span)))
        }),
{
    let span = condition.span;
    let base = body_with(else_body, jump_view(end_label(id), span));
    let n = else_ifs.len();
    lemma_chain_reaches_base(base, else_ifs, id);
    let chain = else_chain(Some(base), else_ifs, id)->0;
    let last = body_with(chain, jump_view(chain.label, span));
    let lowered = if_view(condition, body, else_ifs, Some(else_body), id);
    let top = lowered.kind->CodeBody_0;
    let lines = top.lines;
    if n > 0 {
        assert(body.label != decimal((id + n) as nat));
    }
    assert(body.label != chain.label);
    assert(lines[0].1.kind == KindView::CompareJump(Box::new(condition), body.label, chain.label));
    assert(lines.drop_first()[0] == lines[1]);
    assert(lines.drop_first().drop_first()[0] == lines[2]);
    assert(lines[1].1.kind == KindView::CodeBody(body_with(body, jump_view(end_label(id), span))));
    assert(lines[2].1.kind == KindView::CodeBody(last));
    assert(block_labelled(lines.drop_first().drop_first(), chain.label) == Some(last));
    assert(block_labelled(lines.drop_first(), chain.label) == Some(last));
    assert(when_false(top) == Some(last));
    if n == 0 {
        assert(after_failed_tests(last, 0) == Some(last));
        assert(last.lines.take(else_body.lines.len() + 1int) =~= base.lines);
    } else {
        lemma_when_false_with(chain, jump_view(chain.label, span));
        assert(after_failed_tests(last, n) == after_failed_tests(chain, n));
        assert(base.lines.take(else_body.lines.len() + 1int) =~= base.lines);
    }
}

/// Law: in a lowered `if`, the top block tests the condition and, when it passes, goes on
/// to the body followed by a jump to the end of the `if`; once the condition and the tests
/// after it have failed, the `else if` branches are tested one by one, the last written
/// first (the `k`th after `else_ifs.len() - k` failed tests), each going on, when it
/// passes, to its body followed by a jump to the end. This holds where no body run on a
/// passed test carries the label of a block that a failed test goes to.
pub proof fn law_if_branches_reached(
    condition: EffectView,
    body: BodyView,
    else_ifs: Seq<(EffectView, BodyView)>,
    else_body: Option<BodyView>,
    id: nat,
)
    requires
        branch_labels_apart(
            body,
            else_ifs,
            match else_body {
                Some(e) => e.label,
                None => decimal(id),
            },
            id,
        ),
    ensures
        ({
            let lowered = if_view(condition, body, else_ifs, else_body, id);
            let top = lowered.kind->CodeBody_0;
            &&& lowered.kind is CodeBody
            &&& tested(top) == Some(condition)
            &&& when_true(top) == Some(body_with(body, jump_view(end_label(id), condition.span)))
            &&& forall|k: int|
                0 <= k < else_ifs.len() ==> ((#[trigger] after_failed_tests(top, (else_ifs.len() - k) as nat))
                    matches Some(reached) && tested(reached) == Some(else_ifs[k].0) && when_true(reached) == Some(
                    body_with(else_ifs[k].1, jump_view(end_label(id), else_ifs[k].0.span)),
                ))
        }),
{
    let span = condition.span;
    let n = else_ifs.len();
    let lowered = if_view(condition, body, else_ifs, else_body, id);
    let top = lowered.kind->CodeBody_0;
    let lines = top.lines;
    assert(lines.drop_first()[0] == lines[1]);
    assert(lines[1].1.kind == KindView::CodeBody(body_with(body, jump_view(end_label(id), span))));
    assert(block_labelled(lines.drop_first(), body.label) == Some(body_with(body, jump_view(end_label(id), span))));
    if n > 0 {
        let base = match else_body {
            Some(b) => body_with(b, jump_view(end_label(id), span)),
            None => BodyView { label: decimal(id), lines: Seq::empty() },
        };
        lemma_chain_reaches_base(base, else_ifs, id);
        let chain = else_chain(Some(base), else_ifs, id)->0;
        let last = body_with(chain, jump_view(chain.label, span));
        assert(body.label != decimal((id + n) as nat));
        assert(lines.drop_first().drop_first()[0] == lines[2]);
        assert(lines[2].1.kind == KindView::CodeBody(last));
        assert(block_labelled(lines.drop_first().drop_first(), chain.label) == Some(last));
        assert(block_labelled(lines.drop_first(), chain.label) == Some(last));
        assert(when_false(top) == Some(last));
        lemma_when_false_with(chain, jump_view(chain.label, span));
        assert(last.lines[0] == chain.lines[0]);
        match chain.lines[0].1.kind {
            KindView::CompareJump(_, passed, _) => {
                lemma_block_labelled_push(chain.lines, line_of(jump_view(chain.label, span)), passed);
            },
            _ => {},
        }
        assert(tested(last) == tested(chain));
        assert(when_true(last) == when_true(chain));
        assert forall|k: int| 0 <= k < n implies ((#[trigger] after_failed_tests(top, (n - k) as nat)) matches Some(
            reached,
        ) && tested(reached) == Some(else_ifs[k].0) && when_true(reached) == Some(
            body_with(else_ifs[k].1, jump_view(end_label(id), else_ifs[k].0.span)),
        )) by {
            lemma_chain_prefix(base, else_ifs, id, k + 1);
            let prefix = else_ifs.take(k + 1);
            assert forall|i: int, j: nat| 0 <= i < prefix.len() && id < j <= id + prefix.len() implies (
            #[trigger] prefix[i]).1.label != #[trigger] decimal(j) by {
                assert(prefix[i] == else_ifs[i]);
            }
            assert forall|i: int| 0 <= i < prefix.len() implies (#[trigger] prefix[i]).1.label != base.label by {
                assert(prefix[i] == else_ifs[i]);
            }
            lemma_chain_reaches_base(base, prefix, id);
            assert(prefix.last() == else_ifs[k]);
            let steps = (n - k) as nat;
            assert(after_failed_tests(top, steps) == after_failed_tests(last, (steps - 1) as nat));
            if steps == 1 {
                assert(prefix =~= else_ifs);
            } else {
                assert(after_failed_tests(last, (steps - 1) as nat) == after_failed_tests(
                    chain,
                    (steps - 1) as nat,
                ));
            }
        }
    }
}

/// The label a block starting with a test jumps to when the test fails.
pub open spec fn failed_label(b: BodyView) -> Option<Seq<char>> {
    if b.lines.len() == 0 {
        None
    } else {
        match b.lines[0].1.kind {
            KindView::CompareJump(_, _, otherwise) => Some(otherwise),
            _ => None,
        }
    }
}

/// Law: a lowered `while` loop is a block that tests the condition; when it passes, the
/// body runs and then jumps back to the block, to test again; when it fails, control goes
/// to the end of the block.
pub proof fn law_while_loop(condition: EffectView, body: BodyView, id: nat)
    ensures
        ({
            let lowered = while_view(condition, body, id);
            let top = lowered.kind->CodeBody_0;
            &&& lowered.kind is CodeBody
            &&& tested(top) == Some(condition)
            &&& when_true(top) == Some(body_with(body, jump_view(top.label, condition.span)))
            &&& failed_label(top) == Some(top.label + seq!['e', 'n', 'd'])
        }),
{
    let top = while_view(condition, body, id).kind->CodeBody_0;
    let lines = top.lines;
    assert(lines.drop_first()[0] == lines[1]);
    assert(block_labelled(lines.drop_first(), body.label) == Some(
        body_with(body, jump_view(decimal(id), condition.span)),
    ));
}

} // verus!
