//! Reading the generics of structures and implementations from tokens: the bounds on a
//! type, and the generics of a declaration with their bounds.
use vstd::prelude::*;

use crate::program::{Span, UnparsedType};
use crate::parse_util::{key_index, upsert};
use crate::text::{char_is_whitespace, chars_of, str_eq, string_of, unicode_white_space};
use crate::tokens::{text_range, Token, TokenTypes};
use crate::modifiers::{is_modifier, law_is_modifier_of_packed, modifier_bit, modifier_sum, Attribute, Modifier};
use crate::program::texts;
use crate::top_parser::{
    attribute_views, attributes_from, has_modifier, import_end, import_readable, modifiers_from, parse_attribute,
    parse_import, parse_modifier, token_text, AttributeView, ParserUtils,
};
use crate::type_parser::{lemma_generic_view, opt_type_view, type_view, type_views, TypeView};

verus! {

/// The generic bounds read from token `i` on, after those in `acc`: a generic name adds
/// a type; a generics start makes the last type read the base of the bounds read after it,
/// the same way; a generic end is passed over; the end of the generics or of a bound ends
/// the reading, past it, as does the end of the tokens. `None` where a generics start
/// has no type before it, a name token has no text, or another token comes.
pub open spec fn type_generics_from(tokens: Seq<Token>, buf: Seq<u8>, file: u64, i: int, acc: Seq<TypeView>) -> Option<
    (int, Seq<TypeView>),
>
    decreases tokens.len() - i,
{
    if i < 0 {
        None
    } else if i >= tokens.len() {
        Some((i, acc))
    } else {
        let t = tokens[i];
        if t.token_type == TokenTypes::GenericsStart {
            if acc.len() == 0 {
                None
            } else {
                match type_generics_from(tokens, buf, file, i + 1, Seq::empty()) {
                    None => None,
                    Some((j, inner)) => if i < j <= tokens.len() {
                        type_generics_from(
                            tokens,
                            buf,
                            file,
                            j,
                            acc.drop_last().push(TypeView::Generic(Box::new(acc.last()), inner)),
                        )
                    } else {
                        None
                    },
                }
            }
        } else if t.token_type == TokenTypes::Generic {
            if text_range(buf, t) is None {
                None
            } else {
                type_generics_from(
                    tokens,
                    buf,
                    file,
                    i + 1,
                    acc.push(TypeView::Basic(Span { file, start: i as usize, end: i as usize }, token_text(buf, t))),
                )
            }
        } else if t.token_type == TokenTypes::GenericsEnd || t.token_type == TokenTypes::GenericBoundEnd {
            Some((i + 1, acc))
        } else if t.token_type == TokenTypes::GenericEnd {
            type_generics_from(tokens, buf, file, i + 1, acc)
        } else {
            None
        }
    }
}

proof fn lemma_type_generics_advance(tokens: Seq<Token>, buf: Seq<u8>, file: u64, i: int, acc: Seq<TypeView>)
    ensures
        type_generics_from(tokens, buf, file, i, acc) matches Some((j, _)) ==> i <= j <= tokens.len() || (i == j
            && i > tokens.len()),
    decreases tokens.len() - i,
{
    if 0 <= i < tokens.len() {
        let t = tokens[i];
        if t.token_type == TokenTypes::GenericsStart {
            if acc.len() != 0 {
                match type_generics_from(tokens, buf, file, i + 1, Seq::empty()) {
                    Some((j, inner)) => if i < j <= tokens.len() {
                        lemma_type_generics_advance(
                            tokens,
                            buf,
                            file,
                            j,
                            acc.drop_last().push(TypeView::Generic(Box::new(acc.last()), inner)),
                        );
                    },
                    None => {},
                }
            }
        } else if t.token_type == TokenTypes::Generic {
            lemma_type_generics_advance(
                tokens,
                buf,
                file,
                i + 1,
                acc.push(TypeView::Basic(Span { file, start: i as usize, end: i as usize }, token_text(buf, t))),
            );
        } else if t.token_type == TokenTypes::GenericEnd {
            lemma_type_generics_advance(tokens, buf, file, i + 1, acc);
        }
    }
}

/// Reads the generic bounds on a type (see `type_generics_from`).
pub fn parse_type_generics(parser_utils: &mut ParserUtils) -> (r: Vec<UnparsedType>)
    requires
        old(parser_utils).index <= old(parser_utils).tokens@.len(),
        type_generics_from(
            old(parser_utils).tokens@,
            old(parser_utils).buffer@,
            old(parser_utils).file,
            old(parser_utils).index as int,
            Seq::empty(),
        ) is Some,
    ensures
        final(parser_utils).same_but_index_imports(*old(parser_utils)),
        final(parser_utils).imports.imports@ == old(parser_utils).imports.imports@,
        type_generics_from(
            old(parser_utils).tokens@,
            old(parser_utils).buffer@,
            old(parser_utils).file,
            old(parser_utils).index as int,
            Seq::empty(),
        ) == Some((final(parser_utils).index as int, type_views(r@))),
        old(parser_utils).index <= final(parser_utils).index <= old(parser_utils).tokens@.len(),
    decreases old(parser_utils).tokens@.len() - old(parser_utils).index,
{
    let ghost toks = parser_utils.tokens@;
    let ghost buf = parser_utils.buffer@;
    let ghost file = parser_utils.file;
    let ghost start = parser_utils.index as int;
    let mut current: Vec<UnparsedType> = Vec::new();
    proof {
        assert(type_views(current@) =~= Seq::<TypeView>::empty());
    }
    while parser_utils.tokens.len() != parser_utils.index
        invariant_except_break
            type_generics_from(toks, buf, file, parser_utils.index as int, type_views(current@))
                == type_generics_from(toks, buf, file, start, Seq::empty()),
        invariant
            parser_utils.same_but_index_imports(*old(parser_utils)),
            parser_utils.imports.imports@ == old(parser_utils).imports.imports@,
            toks == parser_utils.tokens@,
            buf == parser_utils.buffer@,
            file == parser_utils.file,
            start == old(parser_utils).index,
            start <= parser_utils.index <= toks.len(),
            type_generics_from(toks, buf, file, start, Seq::empty()) is Some,
        ensures
            type_generics_from(toks, buf, file, start, Seq::empty()) == Some(
                (parser_utils.index as int, type_views(current@)),
            ),
        decreases toks.len() - parser_utils.index,
    {
        let ghost i = parser_utils.index as int;
        let ghost before = type_views(current@);
        let token = parser_utils.tokens[parser_utils.index];
        parser_utils.index += 1;
        match token.token_type {
            TokenTypes::GenericsStart => {
                let ghost last = before.last();
                let temp = current.pop().unwrap();
                proof {
                    assert(type_views(current@) =~= before.drop_last());
                    assert(type_view(temp) == last);
                    lemma_type_generics_advance(toks, buf, file, i + 1, Seq::empty());
                }
                let inner = parse_type_generics(parser_utils);
                proof {
                    lemma_generic_view(temp, inner);
                }
                current.push(UnparsedType::Generic(Box::new(temp), inner));
                proof {
                    assert(type_views(current@) =~= before.drop_last().push(TypeView::Generic(Box::new(last), type_views(inner@))));
                }
            },
            TokenTypes::Generic => {
                let name = token.to_string(parser_utils.buffer);
                current.push(UnparsedType::Basic(Span::new(parser_utils.file, parser_utils.index - 1), name));
                proof {
                    assert(type_views(current@) =~= before.push(TypeView::Basic(Span { file, start: i as usize, end: i as usize }, name@)));
                }
            },
            TokenTypes::GenericsEnd | TokenTypes::GenericBoundEnd => {
                break;
            },
            _ => {},
        }
    }
    current
}

/// `s` without its leading Unicode whitespace.
pub open spec fn trim_start_ws(s: Seq<char>) -> Seq<char>
    decreases s.len(),
{
    if s.len() > 0 && unicode_white_space(s[0]) {
        trim_start_ws(s.drop_first())
    } else {
        s
    }
}

/// `s` without its trailing Unicode whitespace.
pub open spec fn trim_end_ws(s: Seq<char>) -> Seq<char>
    decreases s.len(),
{
    if s.len() > 0 && unicode_white_space(s.last()) {
        trim_end_ws(s.drop_last())
    } else {
        s
    }
}

/// `s` without whitespace at either end, as `str::trim` gives it.
pub open spec fn trimmed(s: Seq<char>) -> Seq<char> {
    trim_end_ws(trim_start_ws(s))
}

/// A name written in a token: its text without a leading `sep`, trimmed.
pub open spec fn name_after(text: Seq<char>, sep: char) -> Seq<char> {
    trimmed(
        if text.len() > 0 && text[0] == sep {
            text.drop_first()
        } else {
            text
        },
    )
}

/// The text without a leading `sep`, trimmed (see `name_after`).
fn read_name_after(text: String, sep: char) -> (r: String)
    ensures
        r@ == name_after(text@, sep),
{
    let chars = chars_of(text.as_str());
    let mut start: usize = if chars.len() > 0 && chars[0] == sep {
        1
    } else {
        0
    };
    let ghost base = if chars@.len() > 0 && chars@[0] == sep {
        chars@.drop_first()
    } else {
        chars@
    };
    proof {
        assert(chars@.skip(start as int) =~= base);
    }
    while start < chars.len() && char_is_whitespace(chars[start])
        invariant
            start <= chars@.len(),
            trim_start_ws(chars@.skip(start as int)) == trim_start_ws(base),
        decreases chars@.len() - start,
    {
        proof {
            assert(chars@.skip(start as int).drop_first() =~= chars@.skip(start + 1));
        }
        start += 1;
    }
    let mut end: usize = chars.len();
    proof {
        assert(trim_start_ws(chars@.skip(start as int)) == chars@.skip(start as int));
        assert(chars@.subrange(start as int, end as int) =~= chars@.skip(start as int));
    }
    while end > start && char_is_whitespace(chars[end - 1])
        invariant
            start <= end <= chars@.len(),
            trim_end_ws(chars@.subrange(start as int, end as int)) == trimmed(base),
        decreases end,
    {
        proof {
            assert(chars@.subrange(start as int, end as int).drop_last() =~= chars@.subrange(start as int, end - 1));
        }
        end -= 1;
    }
    let mut kept: Vec<char> = Vec::new();
    let mut k = start;
    while k < end
        invariant
            start <= k <= end <= chars@.len(),
            kept@ == chars@.subrange(start as int, k as int),
        decreases end - k,
    {
        kept.push(chars[k]);
        k += 1;
    }
    proof {
        assert(trim_end_ws(chars@.subrange(start as int, end as int)) == chars@.subrange(start as int, end as int));
    }
    string_of(kept.as_slice())
}

/// What reading the bounds of a generic from token `i` on gives for the type `name`: where
/// a generics start follows, the bounds after it (see `bounds_loop`) with `name` as their
/// base, or no type where they break off; else `name` itself, the token left unread.
/// `None` where the tokens run out first or a name token has no text.
pub open spec fn bounds_of(tokens: Seq<Token>, buf: Seq<u8>, file: u64, i: int, name: TypeView) -> Option<
    (int, Option<TypeView>),
>
    decreases tokens.len() - i, 1int,
{
    if i < 0 || i >= tokens.len() {
        None
    } else if tokens[i].token_type == TokenTypes::GenericsStart {
        match bounds_loop(tokens, buf, file, i + 1, Seq::empty()) {
            None => None,
            Some((j, None)) => Some((j, None)),
            Some((j, Some(list))) => Some(
                (
                    j,
                    Some(
                        if list.len() == 0 {
                            name
                        } else {
                            TypeView::Generic(Box::new(name), list)
                        },
                    ),
                ),
            ),
        }
    } else {
        Some((i, Some(name)))
    }
}

/// The bounds read from token `i` on, after those in `acc`: a generic or bound name adds
/// the name with its own bounds (reading stops there if those break off); a generics start
/// adds the bounds after it, with an empty base, or breaks everything off if they do; a
/// generic end is passed over; a bound end stops past it; the end of the generics stops
/// before it; any other token breaks everything off before it. `None` inside where it is
/// broken off.
pub open spec fn bounds_loop(tokens: Seq<Token>, buf: Seq<u8>, file: u64, i: int, acc: Seq<TypeView>) -> Option<
    (int, Option<Seq<TypeView>>),
>
    decreases tokens.len() - i, 0int,
{
    if i < 0 {
        None
    } else if i >= tokens.len() {
        Some((i, Some(acc)))
    } else {
        let t = tokens[i];
        if t.token_type == TokenTypes::Generic || t.token_type == TokenTypes::GenericBound {
            if text_range(buf, t) is None {
                None
            } else {
                let base = TypeView::Basic(
                    Span { file, start: i as usize, end: i as usize },
                    name_after(token_text(buf, t), ':'),
                );
                match bounds_of(tokens, buf, file, i + 1, base) {
                    None => None,
                    Some((j, None)) => Some((j, Some(acc))),
                    Some((j, Some(u))) => if i < j <= tokens.len() {
                        bounds_loop(tokens, buf, file, j, acc.push(u))
                    } else {
                        None
                    },
                }
            }
        } else if t.token_type == TokenTypes::GenericsStart {
            match bounds_of(tokens, buf, file, i + 1, TypeView::Basic(Span { file: 0, start: 0, end: 0 }, Seq::empty())) {
                None => None,
                Some((j, None)) => Some((j, None)),
                Some((j, Some(u))) => if i < j <= tokens.len() {
                    bounds_loop(tokens, buf, file, j, acc.push(u))
                } else {
                    None
                },
            }
        } else if t.token_type == TokenTypes::GenericEnd {
            bounds_loop(tokens, buf, file, i + 1, acc)
        } else if t.token_type == TokenTypes::GenericBoundEnd {
            Some((i + 1, Some(acc)))
        } else if t.token_type == TokenTypes::GenericsEnd {
            Some((i, Some(acc)))
        } else {
            Some((i, None))
        }
    }
}

proof fn lemma_bounds_advance(tokens: Seq<Token>, buf: Seq<u8>, file: u64, i: int, acc: Seq<TypeView>, name: TypeView)
    requires
        0 <= i,
    ensures
        bounds_loop(tokens, buf, file, i, acc) matches Some((j, _)) ==> i <= j <= tokens.len() || (i == j && i > tokens.len()),
        bounds_of(tokens, buf, file, i, name) matches Some((j, _)) ==> i <= j <= tokens.len(),
    decreases tokens.len() - i,
{
    if i < tokens.len() {
        let t = tokens[i];
        if t.token_type == TokenTypes::GenericsStart {
            lemma_bounds_advance(tokens, buf, file, i + 1, Seq::empty(), name);
            match bounds_of(tokens, buf, file, i + 1, TypeView::Basic(Span { file: 0, start: 0, end: 0 }, Seq::empty())) {
                Some((j, Some(u))) => if i < j <= tokens.len() {
                    lemma_bounds_advance(tokens, buf, file, j, acc.push(u), name);
                },
                _ => {},
            }
            lemma_bounds_advance(tokens, buf, file, i + 1, acc, TypeView::Basic(Span { file: 0, start: 0, end: 0 }, Seq::empty()));
        } else if t.token_type == TokenTypes::Generic || t.token_type == TokenTypes::GenericBound {
            if text_range(buf, t) is Some {
                let base = TypeView::Basic(
                    Span { file, start: i as usize, end: i as usize },
                    name_after(token_text(buf, t), ':'),
                );
                lemma_bounds_advance(tokens, buf, file, i + 1, acc, base);
                match bounds_of(tokens, buf, file, i + 1, base) {
                    Some((j, Some(u))) => if i < j <= tokens.len() {
                        lemma_bounds_advance(tokens, buf, file, j, acc.push(u), name);
                    },
                    _ => {},
                }
            }
        } else if t.token_type == TokenTypes::GenericEnd {
            lemma_bounds_advance(tokens, buf, file, i + 1, acc, name);
        }
    }
}

/// Reads the bounds of a generic (see `bounds_of`).
pub fn parse_bounds(name: UnparsedType, parser_utils: &mut ParserUtils) -> (r: Option<UnparsedType>)
    requires
        bounds_of(
            old(parser_utils).tokens@,
            old(parser_utils).buffer@,
            old(parser_utils).file,
            old(parser_utils).index as int,
            type_view(name),
        ) is Some,
    ensures
        final(parser_utils).same_but_index_imports(*old(parser_utils)),
        final(parser_utils).imports.imports@ == old(parser_utils).imports.imports@,
        bounds_of(
            old(parser_utils).tokens@,
            old(parser_utils).buffer@,
            old(parser_utils).file,
            old(parser_utils).index as int,
            type_view(name),
        ) == Some((final(parser_utils).index as int, opt_type_view(r))),
        old(parser_utils).index <= final(parser_utils).index <= old(parser_utils).tokens@.len(),
    decreases old(parser_utils).tokens@.len() - old(parser_utils).index, 1int,
{
    let ghost toks = parser_utils.tokens@;
    let ghost buf = parser_utils.buffer@;
    let ghost file = parser_utils.file;
    let ghost first = parser_utils.index as int;
    proof {
        lemma_bounds_advance(toks, buf, file, first, Seq::empty(), type_view(name));
    }
    proof {
        assert(parser_utils.tokens.len() == parser_utils.tokens@.len());
    }
    if parser_utils.tokens[parser_utils.index].token_type == TokenTypes::GenericsStart {
        parser_utils.index += 1;
    } else {
        return Some(name);
    }
    let ghost start = parser_utils.index as int;
    let mut unparsed_bounds: Vec<UnparsedType> = Vec::new();
    proof {
        assert(type_views(unparsed_bounds@) =~= Seq::<TypeView>::empty());
    }
    while parser_utils.tokens.len() != parser_utils.index
        invariant_except_break
            bounds_loop(toks, buf, file, parser_utils.index as int, type_views(unparsed_bounds@))
                == bounds_loop(toks, buf, file, start, Seq::empty()),
        invariant
            parser_utils.same_but_index_imports(*old(parser_utils)),
            parser_utils.imports.imports@ == old(parser_utils).imports.imports@,
            toks == parser_utils.tokens@,
            buf == parser_utils.buffer@,
            file == parser_utils.file,
            first == old(parser_utils).index,
            start == first + 1,
            0 <= first < toks.len(),
            toks[first].token_type == TokenTypes::GenericsStart,
            start <= parser_utils.index <= toks.len(),
            bounds_loop(toks, buf, file, start, Seq::empty()) is Some,
        ensures
            bounds_loop(toks, buf, file, start, Seq::empty()) == Some(
                (parser_utils.index as int, Some(type_views(unparsed_bounds@))),
            ),
        decreases toks.len() - parser_utils.index,
    {
        let ghost i = parser_utils.index as int;
        let ghost before = type_views(unparsed_bounds@);
        let token = parser_utils.tokens[parser_utils.index];
        parser_utils.index += 1;
        match token.token_type {
            TokenTypes::Generic | TokenTypes::GenericBound => {
                let text = token.to_string(parser_utils.buffer);
                let found = read_name_after(text, ':');
                let base = UnparsedType::Basic(Span::new(parser_utils.file, parser_utils.index - 1), found);
                proof {
                    lemma_bounds_advance(toks, buf, file, i + 1, Seq::empty(), type_view(base));
                }
                match parse_bounds(base, parser_utils) {
                    Some(inner) => {
                        unparsed_bounds.push(inner);
                        proof {
                            assert(type_views(unparsed_bounds@) =~= before.push(type_view(inner)));
                        }
                    },
                    None => {
                        break;
                    },
                }
            },
            TokenTypes::GenericsStart => {
                let empty = UnparsedType::Basic(Span::new(0, 0), String::new());
                proof {
                    assert(type_view(empty) == TypeView::Basic(Span { file: 0, start: 0, end: 0 }, Seq::<char>::empty()));
                    lemma_bounds_advance(toks, buf, file, i + 1, Seq::empty(), type_view(empty));
                }
                match parse_bounds(empty, parser_utils) {
                    Some(inner) => {
                        unparsed_bounds.push(inner);
                        proof {
                            assert(type_views(unparsed_bounds@) =~= before.push(type_view(inner)));
                        }
                    },
                    None => {
                        return None;
                    },
                }
            },
            TokenTypes::GenericEnd => {},
            TokenTypes::GenericBoundEnd => {
                break;
            },
            TokenTypes::GenericsEnd => {
                parser_utils.index -= 1;
                break;
            },
            _ => {
                parser_utils.index -= 1;
                return None;
            },
        }
    }
    let unparsed = if unparsed_bounds.len() == 0 {
        name
    } else {
        proof {
            lemma_generic_view(name, unparsed_bounds);
        }
        UnparsedType::Generic(Box::new(name), unparsed_bounds)
    };
    Some(unparsed)
}

/// The generics of a declaration as values: each name with its bounds.
pub open spec fn entry_views(generics: Seq<(String, Vec<UnparsedType>)>) -> Seq<(Seq<char>, Seq<TypeView>)> {
    generics.map_values(|p: (String, Vec<UnparsedType>)| (p.0@, type_views(p.1@)))
}

impl<'a> ParserUtils<'a> {
    /// Whether `other` differs from `self` at most in the index and the generics.
    pub open spec fn same_but_index_generics(&self, other: ParserUtils<'a>) -> bool {
        &&& self.buffer@ == other.buffer@
        &&& self.tokens@ == other.tokens@
        &&& self.file == other.file
        &&& self.file_name@ == other.file_name@
        &&& self.imports.imports@ == other.imports.imports@
        &&& self.imports.parent == other.imports.parent
        &&& self.imports.last_id == other.imports.last_id
    }
}

/// The generics declared from token `i` on, `name` being the name read last, `bounds`
/// its bounds read so far and `generics` those declared so far: a generic token gives the
/// name (without a leading `,`, trimmed); a bound token adds the bound it starts (see
/// `bounds_of`) to the bounds, or ends the reading where that breaks off; a generic end
/// declares the name with its bounds, a name declared again taking the new bounds in its
/// old place, and starts new bounds; the end of the generics declares the name, if it is
/// not empty, and ends the reading past it; so does the end of the tokens, before it.
/// `None` where a token has no text, or another token comes.
pub open spec fn declared_generics(
    tokens: Seq<Token>,
    buf: Seq<u8>,
    file: u64,
    i: int,
    name: Seq<char>,
    bounds: Seq<TypeView>,
    generics: Seq<(Seq<char>, Seq<TypeView>)>,
) -> Option<(int, Seq<(Seq<char>, Seq<TypeView>)>)>
    decreases tokens.len() - i,
{
    if i < 0 {
        None
    } else if i >= tokens.len() {
        Some((i, generics))
    } else {
        let t = tokens[i];
        if t.token_type == TokenTypes::Generic {
            if text_range(buf, t) is None {
                None
            } else {
                declared_generics(tokens, buf, file, i + 1, name_after(token_text(buf, t), ','), bounds, generics)
            }
        } else if t.token_type == TokenTypes::GenericEnd {
            declared_generics(tokens, buf, file, i + 1, name, Seq::empty(), upsert(generics, (name, bounds)))
        } else if t.token_type == TokenTypes::GenericBound {
            if text_range(buf, t) is None {
                None
            } else {
                let base = TypeView::Basic(
                    Span { file, start: i as usize, end: i as usize },
                    name_after(token_text(buf, t), ':'),
                );
                match bounds_of(tokens, buf, file, i + 1, base) {
                    None => None,
                    Some((j, None)) => Some((j, generics)),
                    Some((j, Some(u))) => if i < j <= tokens.len() {
                        declared_generics(tokens, buf, file, j, name, bounds.push(u), generics)
                    } else {
                        None
                    },
                }
            }
        } else if t.token_type == TokenTypes::GenericsEnd {
            Some(
                (
                    i + 1,
                    if name.len() == 0 {
                        generics
                    } else {
                        upsert(generics, (name, bounds))
                    },
                ),
            )
        } else {
            None
        }
    }
}

/// Declares a generic with its bounds, replacing the bounds of a generic of that name.
fn insert_generic(generics: &mut Vec<(String, Vec<UnparsedType>)>, name: String, bounds: Vec<UnparsedType>)
    ensures
        entry_views(final(generics)@) == upsert(entry_views(old(generics)@), (name@, type_views(bounds@))),
{
    let ghost views = entry_views(generics@);
    let ghost entry = (name@, type_views(bounds@));
    let mut i: usize = 0;
    while i < generics.len()
        invariant
            i <= generics@.len(),
            *generics == *old(generics),
            views == entry_views(generics@),
            entry == (name@, type_views(bounds@)),
            key_index(views, name@, 0) == key_index(views, name@, i as int),
        decreases generics@.len() - i,
    {
        if str_eq(generics[i].0.as_str(), name.as_str()) {
            let pair = (name, bounds);
            generics.set(i, pair);
            proof {
                assert(entry_views(generics@) =~= views.update(i as int, entry));
            }
            return;
        }
        i += 1;
    }
    generics.push((name, bounds));
    proof {
        assert(entry_views(generics@) =~= views.push(entry));
    }
}

/// Reads the generics of a declaration into the resolver's generics (see
/// `declared_generics`).
pub fn parse_generics(parser_utils: &mut ParserUtils)
    requires
        old(parser_utils).index <= old(parser_utils).tokens@.len(),
        declared_generics(
            old(parser_utils).tokens@,
            old(parser_utils).buffer@,
            old(parser_utils).file,
            old(parser_utils).index as int,
            Seq::empty(),
            Seq::empty(),
            entry_views(old(parser_utils).imports.generics@),
        ) is Some,
    ensures
        final(parser_utils).same_but_index_generics(*old(parser_utils)),
        declared_generics(
            old(parser_utils).tokens@,
            old(parser_utils).buffer@,
            old(parser_utils).file,
            old(parser_utils).index as int,
            Seq::empty(),
            Seq::empty(),
            entry_views(old(parser_utils).imports.generics@),
        ) == Some((final(parser_utils).index as int, entry_views(final(parser_utils).imports.generics@))),
{
    let ghost toks = parser_utils.tokens@;
    let ghost buf = parser_utils.buffer@;
    let ghost file = parser_utils.file;
    let ghost total = declared_generics(
        toks,
        buf,
        file,
        parser_utils.index as int,
        Seq::empty(),
        Seq::empty(),
        entry_views(parser_utils.imports.generics@),
    );
    let mut name = String::new();
    let mut unparsed_bounds: Vec<UnparsedType> = Vec::new();
    proof {
        assert(type_views(unparsed_bounds@) =~= Seq::<TypeView>::empty());
    }
    while parser_utils.tokens.len() != parser_utils.index
        invariant_except_break
            declared_generics(
                toks,
                buf,
                file,
                parser_utils.index as int,
                name@,
                type_views(unparsed_bounds@),
                entry_views(parser_utils.imports.generics@),
            ) == total,
        invariant
            parser_utils.same_but_index_generics(*old(parser_utils)),
            toks == parser_utils.tokens@,
            buf == parser_utils.buffer@,
            file == parser_utils.file,
            parser_utils.index <= toks.len(),
            total == declared_generics(
                old(parser_utils).tokens@,
                old(parser_utils).buffer@,
                old(parser_utils).file,
                old(parser_utils).index as int,
                Seq::empty(),
                Seq::empty(),
                entry_views(old(parser_utils).imports.generics@),
            ),
            total is Some,
        ensures
            total == Some((parser_utils.index as int, entry_views(parser_utils.imports.generics@))),
        decreases toks.len() - parser_utils.index,
    {
        let ghost i = parser_utils.index as int;
        let ghost before = type_views(unparsed_bounds@);
        let token = parser_utils.tokens[parser_utils.index];
        parser_utils.index += 1;
        match token.token_type {
            TokenTypes::Generic => {
                name = read_name_after(token.to_string(parser_utils.buffer), ',');
            },
            TokenTypes::GenericEnd => {
                let bounds = unparsed_bounds;
                unparsed_bounds = Vec::new();
                insert_generic(&mut parser_utils.imports.generics, name.clone(), bounds);
                proof {
                    assert(type_views(unparsed_bounds@) =~= Seq::<TypeView>::empty());
                }
            },
            TokenTypes::GenericBound => {
                let found = read_name_after(token.to_string(parser_utils.buffer), ':');
                let base = UnparsedType::Basic(Span::new(parser_utils.file, parser_utils.index - 1), found);
                proof {
                    lemma_bounds_advance(toks, buf, file, i + 1, Seq::empty(), type_view(base));
                }
                match parse_bounds(base, parser_utils) {
                    Some(unparsed) => {
                        unparsed_bounds.push(unparsed);
                        proof {
                            assert(type_views(unparsed_bounds@) =~= before.push(type_view(unparsed)));
                        }
                    },
                    None => {
                        break;
                    },
                }
            },
            TokenTypes::GenericsEnd => {
                if !name.as_str().is_empty() {
                    let bounds = unparsed_bounds;
                    unparsed_bounds = Vec::new();
                    insert_generic(&mut parser_utils.imports.generics, name.clone(), bounds);
                }
                break;
            },
            _ => {},
        }
    }
}

/// What reading one token of a structure's or an implementation's body asks of the caller.
#[derive(Debug)]
pub enum MemberEvent {
    /// Nothing: go on with the next token
    Continue,
    /// A function follows, to be read with the member attributes and modifiers so far
    Function,
    /// A field of this name follows, to be read with the member attributes and modifiers
    Field(String),
    /// The body has ended
    End,
    /// Characters that are no member were found; the span says where
    Invalid(Span),
}

/// A member event as values.
pub enum MemberEventView {
    Continue,
    Function,
    Field(Seq<char>),
    End,
    Invalid(Span),
}

/// A member event as values.
pub open spec fn event_view(e: MemberEvent) -> MemberEventView {
    match e {
        MemberEvent::Continue => MemberEventView::Continue,
        MemberEvent::Function => MemberEventView::Function,
        MemberEvent::Field(name) => MemberEventView::Field(name@),
        MemberEvent::End => MemberEventView::End,
        MemberEvent::Invalid(span) => MemberEventView::Invalid(span),
    }
}

/// The state of reading a structure's body, as values: the token index, the structure's
/// name, the parent type, the generics, the imported files, and the attributes and
/// modifiers read for the next member.
pub struct MemberState {
    pub index: int,
    pub name: Seq<char>,
    pub parent: Option<TypeView>,
    pub generics: Seq<(Seq<char>, Seq<TypeView>)>,
    pub imports: Seq<Seq<char>>,
    pub attributes: Seq<AttributeView>,
    pub modifiers: Seq<Modifier>,
}

/// The parent type of a structure with generics: the structure with one bound per
/// generic, named after it.
pub open spec fn parent_with_generics(parent: TypeView, generics: Seq<(Seq<char>, Seq<TypeView>)>) -> TypeView {
    TypeView::Generic(
        Box::new(parent),
        Seq::new(generics.len(), |k: int| TypeView::Basic(Span { file: 0, start: 0, end: 0 }, generics[k].0)),
    )
}

/// What reading the token at `s.index` of a structure's body does, for a structure whose
/// packed modifiers are `modifiers`: a name names the structure and makes it the parent
/// type; generics are read (see `declared_generics`) and added to the parent type; an
/// import, attributes or modifiers are read (the internal modifier added to the members of
/// an internal structure); a function or a field is handed back; characters that are no
/// member are reported; the end of the body or of the file ends it; top elements and
/// comments are passed over. `None` where the token cannot come there or cannot be read.
pub open spec fn structure_member(
    tokens: Seq<Token>,
    buf: Seq<u8>,
    file: u64,
    modifiers: u8,
    s: MemberState,
) -> Option<(MemberState, MemberEventView)> {
    let i = s.index;
    if !(0 <= i < tokens.len()) {
        None
    } else {
        let t = tokens[i];
        let next = MemberState { index: i + 1, ..s };
        if t.token_type == TokenTypes::Identifier {
            if text_range(buf, t) is None {
                None
            } else {
                let name = token_text(buf, t);
                Some(
                    (
                        MemberState {
                            name,
                            parent: Some(TypeView::Basic(Span { file, start: i as usize, end: i as usize }, name)),
                            ..next
                        },
                        MemberEventView::Continue,
                    ),
                )
            }
        } else if t.token_type == TokenTypes::GenericsStart {
            match (s.parent, declared_generics(tokens, buf, file, i + 1, Seq::empty(), Seq::empty(), s.generics)) {
                (Some(parent), Some((j, generics))) => Some(
                    (
                        MemberState {
                            index: j,
                            generics,
                            parent: Some(parent_with_generics(parent, generics)),
                            ..s
                        },
                        MemberEventView::Continue,
                    ),
                ),
                _ => None,
            }
        } else if t.token_type == TokenTypes::StructTopElement || t.token_type == TokenTypes::Comment {
            Some((next, MemberEventView::Continue))
        } else if t.token_type == TokenTypes::InvalidCharacters {
            Some((next, MemberEventView::Invalid(Span { file, start: (i + 1) as usize, end: (i + 1) as usize })))
        } else if t.token_type == TokenTypes::ImportStart {
            if import_readable(tokens, buf, i + 1) {
                let u = tokens[i + 1];
                Some(
                    (
                        MemberState {
                            index: import_end(tokens, i + 1),
                            imports: if u.token_type == TokenTypes::Identifier {
                                s.imports.push(token_text(buf, u))
                            } else {
                                s.imports
                            },
                            ..s
                        },
                        MemberEventView::Continue,
                    ),
                )
            } else {
                None
            }
        } else if t.token_type == TokenTypes::AttributesStart {
            match attributes_from(tokens, buf, i + 1) {
                Some((j, read)) => Some(
                    (MemberState { index: j, attributes: s.attributes + read, ..s }, MemberEventView::Continue),
                ),
                None => None,
            }
        } else if t.token_type == TokenTypes::ModifiersStart {
            match modifiers_from(tokens, buf, i + 1) {
                Some((j, read)) => {
                    let internal = modifiers & modifier_bit(Modifier::Internal) == modifier_bit(Modifier::Internal);
                    Some(
                        (
                            MemberState {
                                index: j,
                                modifiers: if internal {
                                    (s.modifiers + read).push(Modifier::Internal)
                                } else {
                                    s.modifiers + read
                                },
                                ..s
                            },
                            MemberEventView::Continue,
                        ),
                    )
                },
                None => None,
            }
        } else if t.token_type == TokenTypes::FunctionStart {
            Some((next, MemberEventView::Function))
        } else if t.token_type == TokenTypes::FieldName {
            if text_range(buf, t) is None {
                None
            } else {
                Some((next, MemberEventView::Field(token_text(buf, t))))
            }
        } else if t.token_type == TokenTypes::StructEnd || t.token_type == TokenTypes::EOF {
            Some((next, MemberEventView::End))
        } else {
            None
        }
    }
}

/// The state of reading a structure's body, as values.
pub open spec fn member_state(
    parser_utils: ParserUtils,
    name: String,
    attributes: Seq<Attribute>,
    modifiers: Seq<Modifier>,
) -> MemberState {
    MemberState {
        index: parser_utils.index as int,
        name: name@,
        parent: opt_type_view(parser_utils.imports.parent),
        generics: entry_views(parser_utils.imports.generics@),
        imports: texts(parser_utils.imports.imports@),
        attributes: attribute_views(attributes),
        modifiers,
    }
}

impl<'a> ParserUtils<'a> {
    /// Whether `other` differs from `self` at most in the index and the imports.
    pub open spec fn same_source(&self, other: ParserUtils<'a>) -> bool {
        &&& self.buffer@ == other.buffer@
        &&& self.tokens@ == other.tokens@
        &&& self.file == other.file
        &&& self.file_name@ == other.file_name@
        &&& self.imports.last_id == other.imports.last_id
    }
}

/// Reads one token of a structure's body (see `structure_member`).
pub fn structure_step(
    parser_utils: &mut ParserUtils,
    name: &mut String,
    member_attributes: &mut Vec<Attribute>,
    member_modifiers: &mut Vec<Modifier>,
    modifiers: u8,
) -> (r: MemberEvent)
    requires
        structure_member(
            old(parser_utils).tokens@,
            old(parser_utils).buffer@,
            old(parser_utils).file,
            modifiers,
            member_state(*old(parser_utils), *old(name), old(member_attributes)@, old(member_modifiers)@),
        ) is Some,
    ensures
        final(parser_utils).same_source(*old(parser_utils)),
        structure_member(
            old(parser_utils).tokens@,
            old(parser_utils).buffer@,
            old(parser_utils).file,
            modifiers,
            member_state(*old(parser_utils), *old(name), old(member_attributes)@, old(member_modifiers)@),
        ) == Some(
            (
                member_state(*final(parser_utils), *final(name), final(member_attributes)@, final(member_modifiers)@),
                event_view(r),
            ),
        ),
{
    let ghost toks = parser_utils.tokens@;
    let ghost buf = parser_utils.buffer@;
    let ghost old_attributes = attribute_views(member_attributes@);
    let ghost old_modifiers = member_modifiers@;
    proof {
        assert(parser_utils.tokens.len() == parser_utils.tokens@.len());
    }
    let token = parser_utils.tokens[parser_utils.index];
    parser_utils.index += 1;
    match token.token_type {
        TokenTypes::Identifier => {
            let text = token.to_string(parser_utils.buffer);
            let parent = UnparsedType::Basic(Span::new(parser_utils.file, parser_utils.index - 1), text.clone());
            *name = text;
            parser_utils.imports.parent = Some(parent);
            MemberEvent::Continue
        },
        TokenTypes::GenericsStart => {
            parse_generics(parser_utils);
            let base = match &parser_utils.imports.parent {
                Some(parent) => parent.clone(),
                None => UnparsedType::Basic(Span::new(0, 0), String::new()),
            };
            let mut bounds: Vec<UnparsedType> = Vec::new();
            let mut k: usize = 0;
            while k < parser_utils.imports.generics.len()
                invariant
                    k <= parser_utils.imports.generics@.len(),
                    type_views(bounds@) == Seq::new(
                        k as nat,
                        |m: int|
                            TypeView::Basic(
                                Span { file: 0, start: 0, end: 0 },
                                entry_views(parser_utils.imports.generics@)[m].0,
                            ),
                    ),
                decreases parser_utils.imports.generics@.len() - k,
            {
                let key = parser_utils.imports.generics[k].0.clone();
                let ghost before = type_views(bounds@);
                let bound = UnparsedType::Basic(Span::new(0, 0), key);
                bounds.push(bound);
                proof {
                    assert(type_views(bounds@) =~= before.push(type_view(bound)));
                    assert(type_views(bounds@) =~= Seq::new(
                        (k + 1) as nat,
                        |m: int|
                            TypeView::Basic(
                                Span { file: 0, start: 0, end: 0 },
                                entry_views(parser_utils.imports.generics@)[m].0,
                            ),
                    ));
                }
                k += 1;
            }
            proof {
                lemma_generic_view(base, bounds);
                assert(type_views(bounds@) =~= Seq::new(
                    entry_views(parser_utils.imports.generics@).len(),
                    |m: int|
                        TypeView::Basic(Span { file: 0, start: 0, end: 0 }, entry_views(parser_utils.imports.generics@)[m].0),
                ));
            }
            parser_utils.imports.parent = Some(UnparsedType::Generic(Box::new(base), bounds));
            MemberEvent::Continue
        },
        TokenTypes::StructTopElement | TokenTypes::Comment => MemberEvent::Continue,
        TokenTypes::InvalidCharacters => MemberEvent::Invalid(Span::new(parser_utils.file, parser_utils.index)),
        TokenTypes::ImportStart => {
            parse_import(parser_utils);
            MemberEvent::Continue
        },
        TokenTypes::AttributesStart => {
            parse_attribute(parser_utils, member_attributes);
            proof {
                assert(attribute_views(member_attributes@) =~= attribute_views(member_attributes@).take(
                    old_attributes.len() as int,
                ) + attribute_views(member_attributes@).skip(old_attributes.len() as int));
            }
            MemberEvent::Continue
        },
        TokenTypes::ModifiersStart => {
            parse_modifier(parser_utils, member_modifiers);
            proof {
                assert(member_modifiers@ =~= member_modifiers@.take(old_modifiers.len() as int) + member_modifiers@.skip(
                    old_modifiers.len() as int,
                ));
            }
            if is_modifier(modifiers, Modifier::Internal) {
                member_modifiers.push(Modifier::Internal);
            }
            MemberEvent::Continue
        },
        TokenTypes::FunctionStart => MemberEvent::Function,
        TokenTypes::FieldName => MemberEvent::Field(token.to_string(parser_utils.buffer)),
        _ => MemberEvent::End,
    }
}

/// What reading an implementation's header has found so far.
pub struct ImplementorHeader {
    /// 0 before the implemented type's name, 1 after it, 2 after `for`
    pub state: u8,
    /// The type that is implemented
    pub base: Option<UnparsedType>,
    /// The type it is implemented for
    pub implementor: Option<UnparsedType>,
}

/// The state of reading an implementation, as values: the token index, the header, the
/// parent type, the generics, and the attributes and modifiers read for the next member.
pub struct ImplementorState {
    pub index: int,
    pub stage: u8,
    pub base: Option<TypeView>,
    pub implementor: Option<TypeView>,
    pub parent: Option<TypeView>,
    pub generics: Seq<(Seq<char>, Seq<TypeView>)>,
    pub attributes: Seq<AttributeView>,
    pub modifiers: Seq<Modifier>,
}

/// What reading the token at `s.index` of an implementation does, for an implementation
/// with the modifiers `modifiers`: the first name is the implemented type, a later one the
/// type it is implemented for, which becomes the parent type; generics before the first
/// name are declared (see `declared_generics`), later ones are the arguments of the type
/// named last (see `type_generics_from`); `for` starts the type implemented for; attributes
/// and modifiers are read (the internal modifier added to the members of an internal
/// implementation); a function is handed back; characters that are no member are reported;
/// the end of the body or of the file ends it; top elements and comments are passed over.
/// `None` where the token cannot come there or cannot be read.
pub open spec fn implementor_member(
    tokens: Seq<Token>,
    buf: Seq<u8>,
    file: u64,
    modifiers: Seq<Modifier>,
    s: ImplementorState,
) -> Option<(ImplementorState, MemberEventView)> {
    let i = s.index;
    if !(0 <= i < tokens.len()) {
        None
    } else {
        let t = tokens[i];
        let next = ImplementorState { index: i + 1, ..s };
        if t.token_type == TokenTypes::Identifier {
            if text_range(buf, t) is None {
                None
            } else {
                let found = TypeView::Basic(Span { file, start: i as usize, end: i as usize }, token_text(buf, t));
                if s.stage == 0 {
                    Some((ImplementorState { stage: 1, base: Some(found), ..next }, MemberEventView::Continue))
                } else {
                    Some(
                        (
                            ImplementorState { implementor: Some(found), parent: Some(found), ..next },
                            MemberEventView::Continue,
                        ),
                    )
                }
            }
        } else if t.token_type == TokenTypes::GenericsStart {
            if s.stage == 0 {
                match declared_generics(tokens, buf, file, i + 1, Seq::empty(), Seq::empty(), s.generics) {
                    Some((j, generics)) => Some(
                        (ImplementorState { index: j, generics, ..s }, MemberEventView::Continue),
                    ),
                    None => None,
                }
            } else {
                match type_generics_from(tokens, buf, file, i + 1, Seq::empty()) {
                    None => None,
                    Some((j, arguments)) => if s.stage == 1 {
                        match s.base {
                            Some(base) => Some(
                                (
                                    ImplementorState {
                                        index: j,
                                        base: Some(TypeView::Generic(Box::new(base), arguments)),
                                        ..s
                                    },
                                    MemberEventView::Continue,
                                ),
                            ),
                            None => None,
                        }
                    } else {
                        match s.implementor {
                            Some(implementor) => {
                                let found = TypeView::Generic(Box::new(implementor), arguments);
                                Some(
                                    (
                                        ImplementorState {
                                            index: j,
                                            implementor: Some(found),
                                            parent: Some(found),
                                            ..s
                                        },
                                        MemberEventView::Continue,
                                    ),
                                )
                            },
                            None => None,
                        }
                    },
                }
            }
        } else if t.token_type == TokenTypes::For {
            Some((ImplementorState { stage: 2, ..next }, MemberEventView::Continue))
        } else if t.token_type == TokenTypes::AttributesStart {
            match attributes_from(tokens, buf, i + 1) {
                Some((j, read)) => Some(
                    (ImplementorState { index: j, attributes: s.attributes + read, ..s }, MemberEventView::Continue),
                ),
                None => None,
            }
        } else if t.token_type == TokenTypes::ModifiersStart {
            match modifiers_from(tokens, buf, i + 1) {
                Some((j, read)) => Some(
                    (
                        ImplementorState {
                            index: j,
                            modifiers: if modifiers.contains(Modifier::Internal) {
                                (s.modifiers + read).push(Modifier::Internal)
                            } else {
                                s.modifiers + read
                            },
                            ..s
                        },
                        MemberEventView::Continue,
                    ),
                ),
                None => None,
            }
        } else if t.token_type == TokenTypes::FunctionStart {
            Some((next, MemberEventView::Function))
        } else if t.token_type == TokenTypes::StructTopElement || t.token_type == TokenTypes::Comment {
            Some((next, MemberEventView::Continue))
        } else if t.token_type == TokenTypes::StructEnd || t.token_type == TokenTypes::EOF {
            Some((next, MemberEventView::End))
        } else if t.token_type == TokenTypes::InvalidCharacters {
            Some((next, MemberEventView::Invalid(Span { file, start: i as usize, end: i as usize })))
        } else {
            None
        }
    }
}

/// The state of reading an implementation, as values.
pub open spec fn implementor_state(
    parser_utils: ParserUtils,
    header: ImplementorHeader,
    attributes: Seq<Attribute>,
    modifiers: Seq<Modifier>,
) -> ImplementorState {
    ImplementorState {
        index: parser_utils.index as int,
        stage: header.state,
        base: opt_type_view(header.base),
        implementor: opt_type_view(header.implementor),
        parent: opt_type_view(parser_utils.imports.parent),
        generics: entry_views(parser_utils.imports.generics@),
        attributes: attribute_views(attributes),
        modifiers,
    }
}

/// Reads one token of an implementation (see `implementor_member`).
pub fn implementor_step(
    parser_utils: &mut ParserUtils,
    header: &mut ImplementorHeader,
    member_attributes: &mut Vec<Attribute>,
    member_modifiers: &mut Vec<Modifier>,
    modifiers: &Vec<Modifier>,
) -> (r: MemberEvent)
    requires
        implementor_member(
            old(parser_utils).tokens@,
            old(parser_utils).buffer@,
            old(parser_utils).file,
            modifiers@,
            implementor_state(*old(parser_utils), *old(header), old(member_attributes)@, old(member_modifiers)@),
        ) is Some,
    ensures
        final(parser_utils).same_source(*old(parser_utils)),
        final(parser_utils).imports.imports@ == old(parser_utils).imports.imports@,
        implementor_member(
            old(parser_utils).tokens@,
            old(parser_utils).buffer@,
            old(parser_utils).file,
            modifiers@,
            implementor_state(*old(parser_utils), *old(header), old(member_attributes)@, old(member_modifiers)@),
        ) == Some(
            (
                implementor_state(*final(parser_utils), *final(header), final(member_attributes)@, final(member_modifiers)@),
                event_view(r),
            ),
        ),
{
    let ghost old_attributes = attribute_views(member_attributes@);
    let ghost old_modifiers = member_modifiers@;
    proof {
        assert(parser_utils.tokens.len() == parser_utils.tokens@.len());
    }
    let token = parser_utils.tokens[parser_utils.index];
    parser_utils.index += 1;
    match token.token_type {
        TokenTypes::Identifier => {
            let text = token.to_string(parser_utils.buffer);
            let found = UnparsedType::Basic(Span::new(parser_utils.file, parser_utils.index - 1), text);
            if header.state == 0 {
                header.base = Some(found);
                header.state = 1;
            } else {
                parser_utils.imports.parent = Some(found.clone());
                header.implementor = Some(found);
            }
            MemberEvent::Continue
        },
        TokenTypes::GenericsStart => {
            if header.state == 0 {
                parse_generics(parser_utils);
            } else {
                let arguments = parse_type_generics(parser_utils);
                if header.state == 1 {
                    let base = match header.base.take() {
                        Some(base) => base,
                        None => UnparsedType::Basic(Span::new(0, 0), String::new()),
                    };
                    proof {
                        lemma_generic_view(base, arguments);
                    }
                    header.base = Some(UnparsedType::Generic(Box::new(base), arguments));
                } else {
                    let implementor = match header.implementor.take() {
                        Some(implementor) => implementor,
                        None => UnparsedType::Basic(Span::new(0, 0), String::new()),
                    };
                    proof {
                        lemma_generic_view(implementor, arguments);
                    }
                    let found = UnparsedType::Generic(Box::new(implementor), arguments);
                    parser_utils.imports.parent = Some(found.clone());
                    header.implementor = Some(found);
                }
            }
            MemberEvent::Continue
        },
        TokenTypes::For => {
            header.state = 2;
            MemberEvent::Continue
        },
        TokenTypes::AttributesStart => {
            parse_attribute(parser_utils, member_attributes);
            proof {
                assert(attribute_views(member_attributes@) =~= attribute_views(member_attributes@).take(
                    old_attributes.len() as int,
                ) + attribute_views(member_attributes@).skip(old_attributes.len() as int));
            }
            MemberEvent::Continue
        },
        TokenTypes::ModifiersStart => {
            parse_modifier(parser_utils, member_modifiers);
            proof {
                assert(member_modifiers@ =~= member_modifiers@.take(old_modifiers.len() as int) + member_modifiers@.skip(
                    old_modifiers.len() as int,
                ));
            }
            if has_modifier(modifiers, Modifier::Internal) {
                member_modifiers.push(Modifier::Internal);
            }
            MemberEvent::Continue
        },
        TokenTypes::FunctionStart => MemberEvent::Function,
        TokenTypes::InvalidCharacters => MemberEvent::Invalid(Span::new(parser_utils.file, parser_utils.index - 1)),
        TokenTypes::StructEnd | TokenTypes::EOF => MemberEvent::End,
        _ => MemberEvent::Continue,
    }
}

/// The internal modifier alone where `internal` holds, else nothing.
pub open spec fn internal_if(internal: bool) -> Seq<Modifier> {
    if internal {
        seq![Modifier::Internal]
    } else {
        Seq::empty()
    }
}

/// Law: modifiers in an implementation's body are kept for the next member after those
/// read before, and the next member becomes internal by them exactly when the
/// implementation is internal: its own modifiers, whatever else they hold, decide only that.
pub proof fn law_implementor_member_modifiers(
    tokens: Seq<Token>,
    buf: Seq<u8>,
    file: u64,
    modifiers: Seq<Modifier>,
    s: ImplementorState,
)
    requires
        0 <= s.index < tokens.len(),
        tokens[s.index].token_type == TokenTypes::ModifiersStart,
        modifiers_from(tokens, buf, s.index + 1) is Some,
    ensures
        ({
            let (j, read) = modifiers_from(tokens, buf, s.index + 1).unwrap();
            let after = s.modifiers + read + internal_if(modifiers.contains(Modifier::Internal));
            &&& implementor_member(tokens, buf, file, modifiers, s) == Some(
                (ImplementorState { index: j, modifiers: after, ..s }, MemberEventView::Continue),
            )
            &&& after.contains(Modifier::Internal) <==> (s.modifiers.contains(Modifier::Internal) || read.contains(
                Modifier::Internal,
            ) || modifiers.contains(Modifier::Internal))
        }),
{
    let (j, read) = modifiers_from(tokens, buf, s.index + 1).unwrap();
    let inner = s.modifiers + read;
    let after = inner + internal_if(modifiers.contains(Modifier::Internal));
    if modifiers.contains(Modifier::Internal) {
        assert(after =~= inner.push(Modifier::Internal));
        assert(after[after.len() - 1] == Modifier::Internal);
    } else {
        assert(after =~= inner);
    }
    assert(after.contains(Modifier::Internal) ==> (s.modifiers.contains(Modifier::Internal) || read.contains(
        Modifier::Internal,
    ) || modifiers.contains(Modifier::Internal))) by {
        if after.contains(Modifier::Internal) && !modifiers.contains(Modifier::Internal) {
            let k = choose|k: int| 0 <= k < after.len() && after[k] == Modifier::Internal;
            if k < s.modifiers.len() {
                assert(s.modifiers[k] == Modifier::Internal);
            } else {
                assert(read[k - s.modifiers.len()] == Modifier::Internal);
            }
        }
    }
    assert((s.modifiers.contains(Modifier::Internal) || read.contains(Modifier::Internal)) ==> after.contains(
        Modifier::Internal,
    )) by {
        if s.modifiers.contains(Modifier::Internal) {
            let k = choose|k: int| 0 <= k < s.modifiers.len() && s.modifiers[k] == Modifier::Internal;
            assert(after[k] == Modifier::Internal);
        } else if read.contains(Modifier::Internal) {
            let k = choose|k: int| 0 <= k < read.len() && read[k] == Modifier::Internal;
            assert(after[s.modifiers.len() + k] == Modifier::Internal);
        }
    }
}

/// Law: modifiers in a structure's body are kept for the next member after those read
/// before, and for a structure whose modifiers `list` are packed into one number, the next
/// member becomes internal by them exactly when `list` holds the internal modifier.
pub proof fn law_structure_member_modifiers(
    tokens: Seq<Token>,
    buf: Seq<u8>,
    file: u64,
    list: Seq<Modifier>,
    s: MemberState,
)
    requires
        list.no_duplicates(),
        0 <= s.index < tokens.len(),
        tokens[s.index].token_type == TokenTypes::ModifiersStart,
        modifiers_from(tokens, buf, s.index + 1) is Some,
    ensures
        ({
            let (j, read) = modifiers_from(tokens, buf, s.index + 1).unwrap();
            structure_member(tokens, buf, file, modifier_sum(list) as u8, s) == Some(
                (
                    MemberState {
                        index: j,
                        modifiers: s.modifiers + read + internal_if(list.contains(Modifier::Internal)),
                        ..s
                    },
                    MemberEventView::Continue,
                ),
            )
        }),
{
    law_is_modifier_of_packed(list, Modifier::Internal);
    let (j, read) = modifiers_from(tokens, buf, s.index + 1).unwrap();
    let inner = s.modifiers + read;
    if list.contains(Modifier::Internal) {
        assert(inner + internal_if(true) =~= inner.push(Modifier::Internal));
    } else {
        assert(inner + internal_if(false) =~= inner);
    }
}

} // verus!
