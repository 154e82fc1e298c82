//! Reading types with generic arguments from tokens into unparsed types.
use vstd::prelude::*;

use crate::program::{display_parenless, joined, texts, Span, UnparsedType};
use vstd::string::StringExecFns;
use crate::tokens::{text_range, Token, TokenTypes};
use crate::top_parser::{token_text, ParserUtils};

verus! {

/// An unparsed type as values.
pub enum TypeView {
    /// A name, with where it was written
    Basic(Span, Seq<char>),
    /// A base type with its generic arguments or bounds
    Generic(Box<TypeView>, Seq<TypeView>),
}

/// An unparsed type as values.
pub open spec fn type_view(t: UnparsedType) -> TypeView
    decreases t,
{
    match t {
        UnparsedType::Basic(span, name) => TypeView::Basic(span, name@),
        UnparsedType::Generic(base, bounds) => TypeView::Generic(
            Box::new(type_view(*base)),
            Seq::new(
                bounds@.len(),
                |k: int|
                    if 0 <= k < bounds@.len() {
                        type_view(bounds@[k])
                    } else {
                        TypeView::Basic(Span { file: 0, start: 0, end: 0 }, Seq::empty())
                    },
            ),
        ),
    }
}

/// A list of unparsed types as values.
pub open spec fn type_views(types: Seq<UnparsedType>) -> Seq<TypeView> {
    Seq::new(types.len(), |k: int| type_view(types[k]))
}

/// An optional unparsed type as values.
pub open spec fn opt_type_view(t: Option<UnparsedType>) -> Option<TypeView> {
    match t {
        Some(u) => Some(type_view(u)),
        None => None,
    }
}

pub(crate) proof fn lemma_generic_view(base: UnparsedType, bounds: Vec<UnparsedType>)
    ensures
        type_view(UnparsedType::Generic(Box::new(base), bounds)) == TypeView::Generic(
            Box::new(type_view(base)),
            type_views(bounds@),
        ),
{
    let t = UnparsedType::Generic(Box::new(base), bounds);
    match type_view(t) {
        TypeView::Generic(_, list) => {
            assert(list =~= type_views(bounds@));
        },
        _ => {},
    }
}

/// The generic arguments read from token `i` on, after those in `acc`, the last name read
/// not yet added being `last`: a name is kept as the last one (the one before it added);
/// an operator starts the arguments of the last name, which are read the same way, and
/// the result added; an argument end adds the last name; any other token ends the
/// reading, there and without adding the last name. `None` where the tokens run out or a
/// name token has no text.
pub open spec fn generics_loop(
    tokens: Seq<Token>,
    buf: Seq<u8>,
    file: u64,
    i: int,
    acc: Seq<TypeView>,
    last: Option<TypeView>,
) -> Option<(int, Seq<TypeView>)>
    decreases tokens.len() - i, 0int,
{
    if i < 0 || i >= tokens.len() {
        None
    } else {
        let t = tokens[i];
        let with_last = match last {
            Some(u) => acc.push(u),
            None => acc,
        };
        if t.token_type == TokenTypes::Variable {
            if text_range(buf, t) is None {
                None
            } else {
                generics_loop(
                    tokens,
                    buf,
                    file,
                    i + 1,
                    with_last,
                    Some(TypeView::Basic(Span { file, start: i as usize, end: i as usize }, token_text(buf, t))),
                )
            }
        } else if t.token_type == TokenTypes::Operator {
            match last {
                Some(u) => match generics_of(tokens, buf, file, i + 1, u) {
                    None => None,
                    Some((j, g)) => if i < j < tokens.len() {
                        generics_loop(tokens, buf, file, j, acc.push(g), None)
                    } else {
                        None
                    },
                },
                None => generics_loop(tokens, buf, file, i + 1, acc, None),
            }
        } else if t.token_type == TokenTypes::ArgumentEnd {
            generics_loop(tokens, buf, file, i + 1, with_last, None)
        } else {
            Some((i, acc))
        }
    }
}

/// The type `input` with the generic arguments read from token `i` on (see
/// `generics_loop`): `input` itself where there are none.
pub open spec fn generics_of(tokens: Seq<Token>, buf: Seq<u8>, file: u64, i: int, input: TypeView) -> Option<
    (int, TypeView),
>
    decreases tokens.len() - i, 1int,
{
    match generics_loop(tokens, buf, file, i, Seq::empty(), None) {
        None => None,
        Some((j, list)) => Some(
            (
                j,
                if list.len() == 0 {
                    input
                } else {
                    TypeView::Generic(Box::new(input), list)
                },
            ),
        ),
    }
}

pub(crate) proof fn lemma_generics_advance(
    tokens: Seq<Token>,
    buf: Seq<u8>,
    file: u64,
    i: int,
    acc: Seq<TypeView>,
    last: Option<TypeView>,
)
    ensures
        generics_loop(tokens, buf, file, i, acc, last) matches Some((j, _)) ==> i <= j < tokens.len(),
    decreases tokens.len() - i,
{
    if 0 <= i < tokens.len() {
        let t = tokens[i];
        let with_last = match last {
            Some(u) => acc.push(u),
            None => acc,
        };
        if t.token_type == TokenTypes::Variable {
            lemma_generics_advance(
                tokens,
                buf,
                file,
                i + 1,
                with_last,
                Some(TypeView::Basic(Span { file, start: i as usize, end: i as usize }, token_text(buf, t))),
            );
        } else if t.token_type == TokenTypes::Operator {
            match last {
                Some(u) => match generics_of(tokens, buf, file, i + 1, u) {
                    Some((j, g)) => if i < j < tokens.len() {
                        lemma_generics_advance(tokens, buf, file, j, acc.push(g), None);
                    },
                    None => {},
                },
                None => lemma_generics_advance(tokens, buf, file, i + 1, acc, None),
            }
        } else if t.token_type == TokenTypes::ArgumentEnd {
            lemma_generics_advance(tokens, buf, file, i + 1, with_last, None);
        }
    }
}

/// Reads the generic arguments that follow into `input` (see `generics_of`).
pub fn parse_generics(input: UnparsedType, parser_utils: &mut ParserUtils) -> (r: UnparsedType)
    requires
        generics_of(
            old(parser_utils).tokens@,
            old(parser_utils).buffer@,
            old(parser_utils).file,
            old(parser_utils).index as int,
            type_view(input),
        ) is Some,
    ensures
        final(parser_utils).same_but_index_imports(*old(parser_utils)),
        final(parser_utils).imports.imports@ == old(parser_utils).imports.imports@,
        generics_of(
            old(parser_utils).tokens@,
            old(parser_utils).buffer@,
            old(parser_utils).file,
            old(parser_utils).index as int,
            type_view(input),
        ) == Some((final(parser_utils).index as int, type_view(r))),
        old(parser_utils).index <= final(parser_utils).index,
    decreases old(parser_utils).tokens@.len() - old(parser_utils).index,
{
    let ghost toks = parser_utils.tokens@;
    let ghost buf = parser_utils.buffer@;
    let ghost file = parser_utils.file;
    let ghost start = parser_utils.index as int;
    let mut unparsed_generics: Vec<UnparsedType> = Vec::new();
    let mut last: Option<UnparsedType> = None;
    proof {
        assert(type_views(unparsed_generics@) =~= Seq::<TypeView>::empty());
        lemma_generics_advance(toks, buf, file, start, Seq::empty(), None);
    }
    loop
        invariant
            parser_utils.same_but_index_imports(*old(parser_utils)),
            parser_utils.imports.imports@ == old(parser_utils).imports.imports@,
            toks == parser_utils.tokens@,
            buf == parser_utils.buffer@,
            file == parser_utils.file,
            start == old(parser_utils).index,
            start <= parser_utils.index,
            generics_loop(toks, buf, file, start, Seq::empty(), None) is Some,
            generics_loop(toks, buf, file, parser_utils.index as int, type_views(unparsed_generics@), opt_type_view(last))
                == generics_loop(toks, buf, file, start, Seq::empty(), None),
        ensures
            generics_loop(toks, buf, file, start, Seq::empty(), None) == Some(
                (parser_utils.index as int, type_views(unparsed_generics@)),
            ),
        decreases toks.len() - parser_utils.index,
    {
        let ghost i = parser_utils.index as int;
        let ghost before = type_views(unparsed_generics@);
        proof {
            assert(parser_utils.tokens.len() == parser_utils.tokens@.len());
        }
        let token = parser_utils.tokens[parser_utils.index];
        parser_utils.index += 1;
        match token.token_type {
            TokenTypes::Variable => {
                match last {
                    Some(unparsed) => {
                        unparsed_generics.push(unparsed);
                        proof {
                            assert(type_views(unparsed_generics@) =~= before.push(type_view(unparsed)));
                        }
                    },
                    None => {},
                }
                last = Some(UnparsedType::Basic(Span::new(parser_utils.file, parser_utils.index - 1), token.to_string(parser_utils.buffer)));
            },
            TokenTypes::Operator => {
                match last {
                    Some(unparsed) => {
                        let generic = parse_generics(unparsed, parser_utils);
                        unparsed_generics.push(generic);
                        proof {
                            lemma_generics_advance(toks, buf, file, i + 1, Seq::empty(), None);
                            assert(type_views(unparsed_generics@) =~= before.push(type_view(generic)));
                        }
                    },
                    None => {},
                }
                last = None;
            },
            TokenTypes::ArgumentEnd => {
                match last {
                    Some(unparsed) => {
                        unparsed_generics.push(unparsed);
                        proof {
                            assert(type_views(unparsed_generics@) =~= before.push(type_view(unparsed)));
                        }
                    },
                    None => {},
                }
                last = None;
            },
            _ => {
                parser_utils.index -= 1;
                proof {
                    assert(generics_loop(toks, buf, file, i, before, opt_type_view(last)) == Some((i, before)));
                }
                break;
            },
        }
    }
    if unparsed_generics.len() == 0 {
        input
    } else {
        proof {
            lemma_generic_view(input, unparsed_generics);
        }
        UnparsedType::Generic(Box::new(input), unparsed_generics)
    }
}

} // verus!

verus! {

impl Clone for UnparsedType {
    /// A copy of the type, with the same names and spans.
    fn clone(&self) -> (r: Self)
        ensures
            type_view(r) == type_view(*self),
        decreases self,
    {
        match self {
            UnparsedType::Basic(span, name) => UnparsedType::Basic(*span, name.clone()),
            UnparsedType::Generic(base, bounds) => {
                let copied_base = (**base).clone();
                let mut copied: Vec<UnparsedType> = Vec::new();
                let mut i: usize = 0;
                while i < bounds.len()
                    invariant
                        i <= bounds@.len(),
                        self is Generic,
                        self->Generic_1 == *bounds,
                        type_views(copied@) == type_views(bounds@.take(i as int)),
                    decreases bounds@.len() - i,
                {
                    proof {
                        vstd::std_specs::vec::axiom_vec_index_decreases(*bounds, i as int);
                        assert(decreases_to!(*self => self->Generic_1));
                    }
                    let next = bounds[i].clone();
                    let ghost before = type_views(copied@);
                    copied.push(next);
                    proof {
                        assert(type_views(copied@) =~= before.push(type_view(next)));
                        assert(type_views(bounds@.take(i + 1)) =~= type_views(bounds@.take(i as int)).push(type_view(bounds@[i as int])));
                    }
                    i += 1;
                }
                proof {
                    assert(bounds@.take(i as int) =~= bounds@);
                    lemma_generic_view(copied_base, copied);
                    lemma_generic_view(**base, *bounds);
                }
                UnparsedType::Generic(Box::new(copied_base), copied)
            },
        }
    }
}

} // verus!

verus! {

/// How an unparsed type is printed: a basic type is its name; a generic type is its base
/// followed by its bounds between `<` and `>`, joined by ` + `.
pub open spec fn view_text(t: TypeView) -> Seq<char>
    decreases t,
{
    match t {
        TypeView::Basic(_, name) => name,
        TypeView::Generic(base, bounds) => view_text(*base) + "<"@ + joined(views_text(bounds), " + "@) + ">"@,
    }
}

/// How each of a list of unparsed types is printed.
pub open spec fn views_text(types: Seq<TypeView>) -> Seq<Seq<char>>
    decreases types,
{
    if types.len() == 0 {
        Seq::empty()
    } else {
        views_text(types.drop_last()).push(view_text(types.last()))
    }
}

proof fn lemma_views_text(types: Seq<TypeView>)
    ensures
        views_text(types).len() == types.len(),
        forall|k: int| 0 <= k < types.len() ==> #[trigger] views_text(types)[k] == view_text(types[k]),
    decreases types.len(),
{
    if types.len() > 0 {
        lemma_views_text(types.drop_last());
    }
}

impl UnparsedType {
    /// Prints the type (see `view_text`)
    pub fn to_string(&self) -> (r: String)
        ensures
            r@ == view_text(type_view(*self)),
        decreases self,
    {
        match self {
            UnparsedType::Basic(_, name) => name.clone(),
            UnparsedType::Generic(base, bounds) => {
                let mut printed: Vec<String> = Vec::new();
                let mut i: usize = 0;
                while i < bounds.len()
                    invariant
                        i <= bounds@.len(),
                        self is Generic,
                        self->Generic_1 == *bounds,
                        printed@.len() == i,
                        forall|k: int| 0 <= k < i ==> #[trigger] printed@[k]@ == view_text(type_view(bounds@[k])),
                    decreases bounds@.len() - i,
                {
                    proof {
                        vstd::std_specs::vec::axiom_vec_index_decreases(*bounds, i as int);
                        assert(decreases_to!(*self => self->Generic_1));
                    }
                    printed.push(bounds[i].to_string());
                    i += 1;
                }
                let mut output = base.to_string();
                output.append("<");
                let inner = display_parenless(&printed, " + ");
                output.append(inner.as_str());
                output.append(">");
                proof {
                    lemma_generic_view(**base, *bounds);
                    lemma_views_text(type_views(bounds@));
                    assert(texts(printed@) =~= views_text(type_views(bounds@)));
                    reveal_strlit("<");
                    reveal_strlit(">");
                    assert(output@ =~= view_text(type_view(**base)) + "<"@ + joined(views_text(type_views(bounds@)), " + "@) + ">"@);
                }
                output
            },
        }
    }
}

} // verus!
