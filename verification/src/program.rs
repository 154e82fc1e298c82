//! Small pieces of the program model that the parser hands on: source spans, unparsed
//! types, loans, expression kinds, and the helpers that print lists of them.
use vstd::prelude::*;
use vstd::std_specs::cmp::PartialEqSpecImpl;

use vstd::string::StringExecFns;

verus! {

/// A span of tokens in a file: the file's hash and the first and last token index.
#[derive(Clone, Copy, Debug, Default, PartialEq, Eq, Structural)]
pub struct Span {
    /// The hash of the file
    pub file: u64,
    /// The index of the first token
    pub start: usize,
    /// The index of the last token
    pub end: usize,
}

impl Span {
    /// A span covering the single token at `index`
    pub fn new(file: u64, index: usize) -> (s: Self)
        ensures
            s == (Span { file, start: index, end: index }),
    {
        Span { file, start: index, end: index }
    }

    /// Moves the end of the span
    pub fn extend_span(&mut self, end: usize)
        ensures
            *final(self) == (Span { end, ..*old(self) }),
    {
        self.end = end;
    }
}

/// the types of expressions: a normal line, a return, or a break (for inside control statements).
#[derive(Clone, Copy, Debug)]
pub enum ExpressionType {
    /// Breaks break out of a looping control statement like a for or while loop
    Break,
    /// Return returns out of the current function
    Return(Span),
    /// A line does nothing
    Line,
}

/// Whether two expression types are of the same kind; where a return was written does not
/// matter.
pub open spec fn same_kind(a: ExpressionType, b: ExpressionType) -> bool {
    match (a, b) {
        (ExpressionType::Return(_), ExpressionType::Return(_)) => true,
        (ExpressionType::Line, ExpressionType::Line) => true,
        (ExpressionType::Break, ExpressionType::Break) => true,
        _ => false,
    }
}

impl PartialEq for ExpressionType {
    fn eq(&self, other: &Self) -> (r: bool) {
        match (self, other) {
            (ExpressionType::Return(_), ExpressionType::Return(_)) => true,
            (ExpressionType::Line, ExpressionType::Line) => true,
            (ExpressionType::Break, ExpressionType::Break) => true,
            _ => false,
        }
    }
}

impl PartialEqSpecImpl for ExpressionType {
    open spec fn obeys_eq_spec() -> bool {
        true
    }

    open spec fn eq_spec(&self, other: &Self) -> bool {
        same_kind(*self, *other)
    }
}

/// The state of the parser
#[derive(Clone, Copy, Debug, PartialEq, Eq, Structural)]
pub enum ParseState {
    /// No state, defaults to top elements
    NoState,
    /// Used when inside the variable of a control statement.
    /// Ex:
    /// if value == 2 {
    /// value == 2 would be parsed as a ControlVariable
    ControlVariable,
    /// When inside the arguments of a function.
    /// Ex:
    /// printf("String");
    /// "String" would be parsed as a argument.
    Argument,
    /// When inside of an operator, such as 1 + 2
    InOperator,
    /// When inside both an operator and control variable.
    ControlOperator,
    /// When inside a new expression.
    New,
}

/// A type that hasn't been parsed yet, used for types that need to be clonable before they're finalized.
#[derive(Debug)]
pub enum UnparsedType {
    /// Basic types are just a string
    Basic(Span, String),
    /// A generic-bound type, with a base type and bounds
    Generic(Box<UnparsedType>, Vec<UnparsedType>),
}

/// The span of an unparsed type: a basic type's own span, and for a generic type the span
/// of its base, stretched to one past the end of its last bound's span. `None` where that
/// end does not fit in a `usize`.
pub open spec fn type_span(t: UnparsedType) -> Option<Span>
    decreases t,
{
    match t {
        UnparsedType::Basic(span, _) => Some(span),
        UnparsedType::Generic(base, bounds) => {
            match type_span(*base) {
                None => None,
                Some(base_span) => if bounds@.len() == 0 {
                    Some(base_span)
                } else {
                    match type_span(bounds@.last()) {
                        None => None,
                        Some(last) => if last.end < usize::MAX {
                            Some(Span { end: (last.end + 1) as usize, ..base_span })
                        } else {
                            None
                        },
                    }
                },
            }
        },
    }
}

impl UnparsedType {
    /// The span the type covers (see `type_span`)
    pub fn get_span(&self) -> (s: Span)
        requires
            type_span(*self) is Some,
        ensures
            type_span(*self) == Some(s),
        decreases *self,
    {
        match self {
            UnparsedType::Basic(span, _) => *span,
            UnparsedType::Generic(base, bounds) => {
                let mut output = base.get_span();
                if bounds.len() != 0 {
                    let last = &bounds[bounds.len() - 1];
                    proof {
                        assert(bounds@.last() == *last);
                    }
                    let last_span = last.get_span();
                    output.extend_span(last_span.end + 1);
                }
                output
            },
        }
    }
}

/// The texts of a list joined, with `deliminator` between each two of them.
pub open spec fn joined(items: Seq<Seq<char>>, deliminator: Seq<char>) -> Seq<char>
    decreases items.len(),
{
    if items.len() == 0 {
        Seq::empty()
    } else if items.len() == 1 {
        items[0]
    } else {
        joined(items.drop_last(), deliminator) + deliminator + items.last()
    }
}

/// The texts of a list of strings.
pub open spec fn texts(items: Seq<String>) -> Seq<Seq<char>> {
    items.map_values(|s: String| s@)
}

/// Joins the texts with the deliminator between them.
fn join_texts(input: &Vec<String>, deliminator: &str) -> (r: String)
    ensures
        r@ == joined(texts(input@), deliminator@),
{
    let mut output = String::new();
    let mut i: usize = 0;
    while i < input.len()
        invariant
            i <= input@.len(),
            output@ == joined(texts(input@.take(i as int)), deliminator@),
        decreases input@.len() - i,
    {
        proof {
            assert(texts(input@.take(i + 1)).drop_last() =~= texts(input@.take(i as int)));
            assert(texts(input@.take(i + 1)).last() == input@[i as int]@);
        }
        if i != 0 {
            output.append(deliminator);
        }
        output.append(input[i].as_str());
        proof {
            if i == 0 {
                assert(output@ =~= input@[0]@);
            }
        }
        i += 1;
    }
    proof {
        assert(input@.take(i as int) =~= input@);
    }
    output
}

/// Prints a list between parentheses, with the deliminator between its elements: `()`
/// for an empty list.
pub fn display(input: &Vec<String>, deliminator: &str) -> (r: String)
    ensures
        r@ == seq!['('] + joined(texts(input@), deliminator@) + seq![')'],
{
    let mut output = String::new();
    output.append("(");
    let inner = join_texts(input, deliminator);
    output.append(inner.as_str());
    output.append(")");
    proof {
        reveal_strlit("(");
        reveal_strlit(")");
        assert(output@ =~= seq!['('] + joined(texts(input@), deliminator@) + seq![')']);
    }
    output
}

/// Prints a list with the deliminator between its elements: the empty text for an empty list.
pub fn display_parenless(input: &Vec<String>, deliminator: &str) -> (r: String)
    ensures
        r@ == joined(texts(input@), deliminator@),
{
    join_texts(input, deliminator)
}

/// A loan is a restriction on what can be done with a variable
#[derive(Clone, Debug, PartialEq, Eq, Hash)]
pub struct Loan {
    /// Whether it's a mutable loan or a shared loan
    pub mutable: bool,
    /// The fields being accessed, for example:
    /// foo.bar.value would be ["foo", "bar", "value"]
    /// Can be empty
    pub target: Vec<String>,
}

/// How a loan is printed: `mut` or nothing for a loan without a target, else
/// `{mut(path)}` or `{shared(path)}` with the target's fields joined by dots.
pub open spec fn loan_text(mutable: bool, target: Seq<Seq<char>>) -> Seq<char> {
    if target.len() == 0 {
        if mutable {
            "mut"@
        } else {
            Seq::empty()
        }
    } else if mutable {
        "{mut("@ + joined(target, "."@) + ")}"@
    } else {
        "{shared("@ + joined(target, "."@) + ")}"@
    }
}

impl Loan {
    /// Prints the loan (see `loan_text`)
    pub fn to_string(&self) -> (r: String)
        ensures
            r@ == loan_text(self.mutable, texts(self.target@)),
    {
        let target = join_texts(&self.target, ".");
        let mut output = String::new();
        if self.target.len() == 0 {
            if self.mutable {
                output.append("mut");
            }
        } else {
            if self.mutable {
                output.append("{mut(");
            } else {
                output.append("{shared(");
            }
            output.append(target.as_str());
            output.append(")}");
        }
        output
    }
}

} // verus!
