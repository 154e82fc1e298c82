//! Reading a file's top level from its tokens: imports, attributes and modifiers, and what
//! each top-level token asks the parser to do.
use vstd::prelude::*;

use crate::imports::ImportNameResolver;
use crate::modifiers::{all_modifiers, modifier_text, writable_modifiers, Attribute, Modifier};
use crate::parse_util::{lemma_split_from_len, split_chars, split_from, split_on};
use crate::program::texts;
use crate::text::{
    chars_of, decimal_i64, lowercase, parse_i64, str_eq, string_of, unicode_lowercase, utf8_lossy,
};
use crate::tokens::{text_range, token_bytes, Token, TokenTypes};

verus! {

/// What the parser of a file's top level works on: the file's bytes and tokens, where it
/// is in them, and what the file imports.
pub struct ParserUtils<'a> {
    /// A buffer containing the file data
    pub buffer: &'a [u8],
    /// Index in the tokens
    pub index: usize,
    /// All found tokens
    pub tokens: Vec<Token>,
    /// The current file
    pub file: u64,
    /// The current file name
    pub file_name: String,
    /// The current imports
    pub imports: ImportNameResolver,
}

/// The text a token stands for.
pub open spec fn token_text(buf: Seq<u8>, token: Token) -> Seq<char> {
    utf8_lossy(token_bytes(buf, token))
}

impl<'a> ParserUtils<'a> {
    /// Whether `other` differs from `self` at most in the index and the imported files.
    pub open spec fn same_but_index_imports(&self, other: ParserUtils<'a>) -> bool {
        &&& self.buffer@ == other.buffer@
        &&& self.tokens@ == other.tokens@
        &&& self.file == other.file
        &&& self.file_name@ == other.file_name@
        &&& self.imports.generics@ == other.imports.generics@
        &&& self.imports.parent == other.imports.parent
        &&& self.imports.last_id == other.imports.last_id
    }
}

/// Where an import statement starting at token `i` can be read: the token exists and has
/// a text, and a name is followed by another token.
pub open spec fn import_readable(tokens: Seq<Token>, buf: Seq<u8>, i: int) -> bool {
    &&& 0 <= i < tokens.len()
    &&& text_range(buf, tokens[i]) is Some
    &&& (tokens[i].token_type == TokenTypes::Identifier ==> i + 1 < tokens.len())
}

/// Where reading an import statement starting at token `i` stops: past the name if the
/// token is one, then past the end of the import if that follows.
pub open spec fn import_end(tokens: Seq<Token>, i: int) -> int {
    let j = if tokens[i].token_type == TokenTypes::Identifier {
        i + 1
    } else {
        i
    };
    if tokens[j].token_type == TokenTypes::ImportEnd {
        j + 1
    } else {
        j
    }
}

/// Reads an import statement: a name token is added to the file's imports.
pub fn parse_import(parser_utils: &mut ParserUtils)
    requires
        import_readable(old(parser_utils).tokens@, old(parser_utils).buffer@, old(parser_utils).index as int),
    ensures
        final(parser_utils).same_but_index_imports(*old(parser_utils)),
        final(parser_utils).index == import_end(old(parser_utils).tokens@, old(parser_utils).index as int),
        texts(final(parser_utils).imports.imports@) == if old(parser_utils).tokens@[old(parser_utils).index as int].token_type
            == TokenTypes::Identifier {
            texts(old(parser_utils).imports.imports@).push(
                token_text(old(parser_utils).buffer@, old(parser_utils).tokens@[old(parser_utils).index as int]),
            )
        } else {
            texts(old(parser_utils).imports.imports@)
        },
{
    proof {
        assert(parser_utils.tokens.len() == parser_utils.tokens@.len());
    }
    let next = parser_utils.tokens[parser_utils.index];
    parser_utils.index += 1;
    let name = next.to_string(parser_utils.buffer);
    let ghost before = parser_utils.imports.imports@;
    match next.token_type {
        TokenTypes::Identifier => {
            parser_utils.imports.imports.push(name);
            proof {
                assert(texts(parser_utils.imports.imports@) =~= texts(before).push(name@));
            }
        },
        _ => {
            parser_utils.index -= 1;
        },
    }
    if parser_utils.tokens[parser_utils.index].token_type == TokenTypes::ImportEnd {
        parser_utils.index += 1;
    }
}

/// An attribute as values.
pub enum AttributeView {
    /// A name alone
    Basic(Seq<char>),
    /// A name with a number
    Integer(Seq<char>, i64),
    /// A name with a truth value
    Bool(Seq<char>, bool),
    /// A name with a text
    Text(Seq<char>, Seq<char>),
}

impl View for Attribute {
    type V = AttributeView;

    open spec fn view(&self) -> AttributeView {
        match self {
            Attribute::Basic(name) => AttributeView::Basic(name@),
            Attribute::Integer(name, value) => AttributeView::Integer(name@, *value),
            Attribute::Bool(name, value) => AttributeView::Bool(name@, *value),
            Attribute::String(name, value) => AttributeView::Text(name@, value@),
        }
    }
}

/// The truth value that `bool::from_str` reads: exactly `true` or `false`.
pub open spec fn bool_text(s: Seq<char>) -> Option<bool> {
    if s == "true"@ {
        Some(true)
    } else if s == "false"@ {
        Some(false)
    } else {
        None
    }
}

/// Reads `true` or `false`, as `bool::from_str` does.
fn parse_bool(s: &str) -> (r: Option<bool>)
    ensures
        r == bool_text(s@),
{
    if str_eq(s, "true") {
        Some(true)
    } else if str_eq(s, "false") {
        Some(false)
    } else {
        None
    }
}

/// The name of an attribute with a value: the text before the `(`, lowercased, without
/// a leading `#[`.
pub open spec fn attribute_value_name(first: Seq<char>) -> Seq<char> {
    let lower = unicode_lowercase(first);
    if lower.len() >= 2 && lower[0] == '#' && lower[1] == '[' {
        lower.skip(2)
    } else {
        lower
    }
}

/// Whether an attribute's text can be read: one with a `(` needs a last character, a
/// single byte, after it (the one that closes the value).
pub open spec fn attribute_text_readable(s: Seq<char>) -> bool {
    s.contains('(') ==> {
        let second = split_on(s, '(')[1];
        second.len() > 0 && (second.last() as u32) < 128
    }
}

/// The attribute an attribute token's text stands for. Without a `(` it is the text
/// itself. With one, the name comes before it (see `attribute_value_name`) and the value
/// is the text after it up to the next `(`, its last character dropped: a number if it
/// reads as one, else a truth value if it reads as one, else the text.
pub open spec fn attribute_of_text(s: Seq<char>) -> AttributeView {
    if !s.contains('(') {
        AttributeView::Basic(s)
    } else {
        let pieces = split_on(s, '(');
        let name = attribute_value_name(pieces[0]);
        let value = pieces[1].drop_last();
        match decimal_i64(value) {
            Some(v) => AttributeView::Integer(name, v),
            None => match bool_text(value) {
                Some(b) => AttributeView::Bool(name, b),
                None => AttributeView::Text(name, value),
            },
        }
    }
}

pub(crate) proof fn lemma_split_second(s: Seq<char>, sep: char, i: int, cur: Seq<char>, done: Seq<Seq<char>>)
    requires
        0 <= i <= s.len(),
        exists|k: int| i <= k < s.len() && s[k] == sep,
    ensures
        split_from(s, sep, i, cur, done).len() >= done.len() + 2,
    decreases s.len() - i,
{
    if s[i] == sep {
        lemma_split_from_len(s, sep, i + 1, Seq::empty(), done.push(cur));
    } else {
        let k = choose|k: int| i <= k < s.len() && s[k] == sep;
        assert(i + 1 <= k);
        lemma_split_second(s, sep, i + 1, cur.push(s[i]), done);
    }
}

/// Whether a character occurs in a list of characters.
fn has_char(s: &Vec<char>, c: char) -> (r: bool)
    ensures
        r == s@.contains(c),
{
    let mut i: usize = 0;
    while i < s.len()
        invariant
            i <= s@.len(),
            forall|k: int| 0 <= k < i ==> s@[k] != c,
        decreases s@.len() - i,
    {
        if s[i] == c {
            proof {
                assert(s@[i as int] == c);
            }
            return true;
        }
        i += 1;
    }
    false
}

/// Reads the attribute an attribute token's text stands for (see `attribute_of_text`).
fn attribute_of(string: String) -> (r: Attribute)
    requires
        attribute_text_readable(string@),
    ensures
        r@ == attribute_of_text(string@),
{
    let chars = chars_of(string.as_str());
    if !has_char(&chars, '(') {
        return Attribute::Basic(string);
    }
    let pieces = split_chars(&chars, '(');
    proof {
        let k = choose|k: int| 0 <= k < chars@.len() && chars@[k] == '(';
        lemma_split_second(chars@, '(', 0, Seq::empty(), Seq::empty());
    }
    let lower = lowercase(string_of(pieces[0].as_slice()).as_str());
    let lower_chars = chars_of(lower.as_str());
    let name = if lower_chars.len() >= 2 && lower_chars[0] == '#' && lower_chars[1] == '[' {
        let mut rest: Vec<char> = Vec::new();
        let mut i: usize = 2;
        while i < lower_chars.len()
            invariant
                2 <= i <= lower_chars@.len(),
                rest@ == lower_chars@.subrange(2, i as int),
            decreases lower_chars@.len() - i,
        {
            rest.push(lower_chars[i]);
            i += 1;
        }
        proof {
            assert(rest@ =~= lower_chars@.skip(2));
        }
        string_of(rest.as_slice())
    } else {
        lower
    };
    let second = &pieces[1];
    let mut value_chars: Vec<char> = Vec::new();
    let mut i: usize = 0;
    while i < second.len() - 1
        invariant
            second@.len() > 0,
            i < second@.len(),
            value_chars@ == second@.take(i as int),
        decreases second@.len() - i,
    {
        value_chars.push(second[i]);
        i += 1;
    }
    proof {
        assert(value_chars@ =~= second@.drop_last());
    }
    let value = string_of(value_chars.as_slice());
    match parse_i64(value.as_str()) {
        Some(v) => Attribute::Integer(name, v),
        None => match parse_bool(value.as_str()) {
            Some(b) => Attribute::Bool(name, b),
            None => Attribute::String(name, value),
        },
    }
}

/// The attributes read from token `i` on: attribute-list starts are passed over, each
/// attribute token is read and the token after it skipped, and reading stops at any other
/// token or at the last token. `None` where a token on the way has no text, or an
/// attribute's text cannot be read.
pub open spec fn attributes_from(tokens: Seq<Token>, buf: Seq<u8>, i: int) -> Option<(int, Seq<AttributeView>)>
    decreases tokens.len() - i,
{
    if i < 0 || i >= tokens.len() - 1 {
        Some((i, Seq::empty()))
    } else if tokens[i].token_type == TokenTypes::AttributeStart {
        attributes_from(tokens, buf, i + 1)
    } else if tokens[i].token_type != TokenTypes::Attribute {
        Some((i, Seq::empty()))
    } else if text_range(buf, tokens[i]) is None || !attribute_text_readable(token_text(buf, tokens[i])) {
        None
    } else {
        match attributes_from(tokens, buf, i + 2) {
            None => None,
            Some((end, rest)) => Some((end, seq![attribute_of_text(token_text(buf, tokens[i]))] + rest)),
        }
    }
}

/// The views of a list of attributes.
pub open spec fn attribute_views(attributes: Seq<Attribute>) -> Seq<AttributeView> {
    attributes.map_values(|a: Attribute| a@)
}

/// Reads the attributes that follow (see `attributes_from`), adding them to `attributes`.
pub fn parse_attribute(parser_utils: &mut ParserUtils, attributes: &mut Vec<Attribute>)
    requires
        old(parser_utils).tokens@.len() > 0,
        attributes_from(old(parser_utils).tokens@, old(parser_utils).buffer@, old(parser_utils).index as int) is Some,
    ensures
        final(parser_utils).same_but_index_imports(*old(parser_utils)),
        final(parser_utils).imports.imports@ == old(parser_utils).imports.imports@,
        attributes_from(old(parser_utils).tokens@, old(parser_utils).buffer@, old(parser_utils).index as int) == Some(
            (
                final(parser_utils).index as int,
                attribute_views(final(attributes)@).skip(old(attributes)@.len() as int),
            ),
        ),
        attribute_views(final(attributes)@).take(old(attributes)@.len() as int) == attribute_views(old(attributes)@),
        old(attributes)@.len() <= final(attributes)@.len(),
{
    let ghost toks = parser_utils.tokens@;
    let ghost buf = parser_utils.buffer@;
    let ghost start = old(attributes)@.len() as int;
    let ghost total = attributes_from(toks, buf, parser_utils.index as int).unwrap();
    proof {
        assert(attribute_views(attributes@).skip(start) =~= Seq::<AttributeView>::empty());
        assert(attribute_views(attributes@).take(start) =~= attribute_views(old(attributes)@));
    }
    while parser_utils.index < parser_utils.tokens.len() - 1
        invariant
            parser_utils.same_but_index_imports(*old(parser_utils)),
            parser_utils.imports.imports@ == old(parser_utils).imports.imports@,
            toks == parser_utils.tokens@,
            buf == parser_utils.buffer@,
            toks.len() > 0,
            start == old(attributes)@.len(),
            total == attributes_from(old(parser_utils).tokens@, old(parser_utils).buffer@, old(parser_utils).index as int).unwrap(),
            attributes_from(old(parser_utils).tokens@, old(parser_utils).buffer@, old(parser_utils).index as int) is Some,
            start <= attributes@.len(),
            attribute_views(attributes@).take(start) == attribute_views(old(attributes)@),
            attributes_from(toks, buf, parser_utils.index as int) matches Some((end, rest)) && end == total.0
                && attribute_views(attributes@).skip(start) + rest == total.1,
        decreases toks.len() - parser_utils.index,
    {
        let next = parser_utils.tokens[parser_utils.index];
        if next.token_type == TokenTypes::AttributeStart {
            parser_utils.index += 1;
            continue;
        }
        if next.token_type != TokenTypes::Attribute {
            proof {
                assert(attribute_views(attributes@).skip(start) + Seq::<AttributeView>::empty() =~= attribute_views(attributes@).skip(start));
            }
            return;
        }
        let ghost i = parser_utils.index as int;
        let ghost views = attribute_views(attributes@);
        parser_utils.index += 2;
        let string = next.to_string(parser_utils.buffer);
        let attribute = attribute_of(string);
        attributes.push(attribute);
        proof {
            let (end, rest) = attributes_from(toks, buf, i + 2).unwrap();
            assert(attribute_views(attributes@) =~= views.push(attribute@));
            assert(attribute_views(attributes@).take(start) =~= views.take(start));
            assert(attribute_views(attributes@).skip(start) =~= views.skip(start).push(attribute@));
            assert(views.skip(start).push(attribute@) + rest =~= views.skip(start) + (seq![attribute@] + rest));
        }
    }
    proof {
        assert(attribute_views(attributes@).skip(start) + Seq::<AttributeView>::empty() =~= attribute_views(attributes@).skip(start));
    }
}

/// The modifier a source text names, if any.
pub open spec fn modifier_named(name: Seq<char>) -> Option<Modifier> {
    if name == modifier_text(Modifier::Public)@ {
        Some(Modifier::Public)
    } else if name == modifier_text(Modifier::Protected)@ {
        Some(Modifier::Protected)
    } else if name == modifier_text(Modifier::Extern)@ {
        Some(Modifier::Extern)
    } else if name == modifier_text(Modifier::Internal)@ {
        Some(Modifier::Internal)
    } else {
        None
    }
}

/// The modifiers read from token `i` on: each modifier token in a row. `None` where the
/// tokens run out before another token, or a modifier token has no text or names no
/// modifier.
pub open spec fn modifiers_from(tokens: Seq<Token>, buf: Seq<u8>, i: int) -> Option<(int, Seq<Modifier>)>
    decreases tokens.len() - i,
{
    if i < 0 || i >= tokens.len() {
        None
    } else if tokens[i].token_type != TokenTypes::Modifier {
        Some((i, Seq::empty()))
    } else if text_range(buf, tokens[i]) is None {
        None
    } else {
        match modifier_named(token_text(buf, tokens[i])) {
            None => None,
            Some(m) => match modifiers_from(tokens, buf, i + 1) {
                None => None,
                Some((end, rest)) => Some((end, seq![m] + rest)),
            },
        }
    }
}

/// The writable modifier whose text is `name`, tried in order.
fn find_modifier(name: &String) -> (r: Option<Modifier>)
    ensures
        r == modifier_named(name@),
{
    let all = writable_modifiers();
    let mut i: usize = 0;
    while i < 4
        invariant
            i <= 4,
            all@ == all_modifiers(),
            forall|k: int| 0 <= k < i ==> name@ != modifier_text(#[trigger] all_modifiers()[k])@,
        decreases 4 - i,
    {
        let modifier = all[i];
        if str_eq(name.as_str(), modifier.name()) {
            return Some(modifier);
        }
        i += 1;
    }
    proof {
        assert(name@ != modifier_text(all_modifiers()[0])@);
        assert(name@ != modifier_text(all_modifiers()[1])@);
        assert(name@ != modifier_text(all_modifiers()[2])@);
        assert(name@ != modifier_text(all_modifiers()[3])@);
    }
    None
}

/// Reads the modifiers that follow (see `modifiers_from`), adding them to `modifiers`.
pub fn parse_modifier(parser_utils: &mut ParserUtils, modifiers: &mut Vec<Modifier>)
    requires
        modifiers_from(old(parser_utils).tokens@, old(parser_utils).buffer@, old(parser_utils).index as int) is Some,
    ensures
        final(parser_utils).same_but_index_imports(*old(parser_utils)),
        final(parser_utils).imports.imports@ == old(parser_utils).imports.imports@,
        modifiers_from(old(parser_utils).tokens@, old(parser_utils).buffer@, old(parser_utils).index as int) == Some(
            (final(parser_utils).index as int, final(modifiers)@.skip(old(modifiers)@.len() as int)),
        ),
        final(modifiers)@.take(old(modifiers)@.len() as int) == old(modifiers)@,
        old(modifiers)@.len() <= final(modifiers)@.len(),
{
    let ghost toks = parser_utils.tokens@;
    let ghost buf = parser_utils.buffer@;
    let ghost start = old(modifiers)@.len() as int;
    let ghost total = modifiers_from(toks, buf, parser_utils.index as int).unwrap();
    proof {
        assert(modifiers@.skip(start) =~= Seq::<Modifier>::empty());
        assert(modifiers@.take(start) =~= old(modifiers)@);
    }
    loop
        invariant
            parser_utils.same_but_index_imports(*old(parser_utils)),
            parser_utils.imports.imports@ == old(parser_utils).imports.imports@,
            toks == parser_utils.tokens@,
            buf == parser_utils.buffer@,
            start == old(modifiers)@.len(),
            total == modifiers_from(old(parser_utils).tokens@, old(parser_utils).buffer@, old(parser_utils).index as int).unwrap(),
            modifiers_from(old(parser_utils).tokens@, old(parser_utils).buffer@, old(parser_utils).index as int) is Some,
            start <= modifiers@.len(),
            modifiers@.take(start) == old(modifiers)@,
            modifiers_from(toks, buf, parser_utils.index as int) matches Some((end, rest)) && end == total.0
                && modifiers@.skip(start) + rest == total.1,
        decreases toks.len() - parser_utils.index,
    {
        let next = parser_utils.tokens[parser_utils.index];
        if next.token_type != TokenTypes::Modifier {
            proof {
                assert(modifiers@.skip(start) + Seq::<Modifier>::empty() =~= modifiers@.skip(start));
            }
            return;
        }
        let ghost i = parser_utils.index as int;
        let ghost before = modifiers@;
        proof {
            assert(parser_utils.tokens.len() == parser_utils.tokens@.len());
        }
        parser_utils.index += 1;
        let name = next.to_string(parser_utils.buffer);
        let found = find_modifier(&name);
        match found {
            Some(modifier) => {
                modifiers.push(modifier);
                proof {
                    let (end, rest) = modifiers_from(toks, buf, i + 1).unwrap();
                    assert(modifiers@.take(start) =~= before.take(start));
                    assert(modifiers@.skip(start) =~= before.skip(start).push(modifier));
                    assert(before.skip(start).push(modifier) + rest =~= before.skip(start) + (seq![modifier] + rest));
                }
            },
            None => {
                return;
            },
        }
    }
}

/// What the top-level parser does with a token.
#[derive(Clone, Copy, Debug, PartialEq, Eq, Structural)]
pub enum TopAction {
    /// Nothing: the token is passed over
    Skip,
    /// The token is no top element: the file is marked as poisoned
    Invalid,
    /// An import statement follows
    Import,
    /// Attributes follow
    Attributes,
    /// Modifiers follow
    Modifiers,
    /// A function follows
    Function,
    /// A structure follows
    Structure,
    /// A trait follows, whose modifiers are then marked as a trait's
    Trait,
    /// A trait follows that is marked internal or external, which traits cannot be: it is
    /// read, reported, and the file is read no further
    InvalidTrait,
    /// An implementation follows
    Implementation,
    /// The file has ended
    Stop,
}

/// The top-level action for a token, given the modifiers read before it.
pub open spec fn top_action_of(token_type: TokenTypes, modifiers: Seq<Modifier>) -> TopAction {
    match token_type {
        TokenTypes::InvalidCharacters => TopAction::Invalid,
        TokenTypes::ImportStart => TopAction::Import,
        TokenTypes::AttributesStart => TopAction::Attributes,
        TokenTypes::ModifiersStart => TopAction::Modifiers,
        TokenTypes::FunctionStart => TopAction::Function,
        TokenTypes::StructStart => TopAction::Structure,
        TokenTypes::TraitStart => if modifiers.contains(Modifier::Internal) || modifiers.contains(Modifier::Extern) {
            TopAction::InvalidTrait
        } else {
            TopAction::Trait
        },
        TokenTypes::ImplStart => TopAction::Implementation,
        TokenTypes::EOF => TopAction::Stop,
        _ => TopAction::Skip,
    }
}

/// Whether a modifier is in a list.
pub(crate) fn has_modifier(modifiers: &Vec<Modifier>, target: Modifier) -> (r: bool)
    ensures
        r == modifiers@.contains(target),
{
    let mut i: usize = 0;
    while i < modifiers.len()
        invariant
            i <= modifiers@.len(),
            forall|k: int| 0 <= k < i ==> modifiers@[k] != target,
        decreases modifiers@.len() - i,
    {
        if modifiers[i] == target {
            proof {
                assert(modifiers@[i as int] == target);
            }
            return true;
        }
        i += 1;
    }
    false
}

/// Decides what the top-level parser does with a token (see `top_action_of`).
pub fn top_action(token_type: TokenTypes, modifiers: &Vec<Modifier>) -> (r: TopAction)
    ensures
        r == top_action_of(token_type, modifiers@),
{
    match token_type {
        TokenTypes::InvalidCharacters => TopAction::Invalid,
        TokenTypes::ImportStart => TopAction::Import,
        TokenTypes::AttributesStart => TopAction::Attributes,
        TokenTypes::ModifiersStart => TopAction::Modifiers,
        TokenTypes::FunctionStart => TopAction::Function,
        TokenTypes::StructStart => TopAction::Structure,
        TokenTypes::TraitStart => {
            if has_modifier(modifiers, Modifier::Internal) || has_modifier(modifiers, Modifier::Extern) {
                TopAction::InvalidTrait
            } else {
                TopAction::Trait
            }
        },
        TokenTypes::ImplStart => TopAction::Implementation,
        TokenTypes::EOF => TopAction::Stop,
        _ => TopAction::Skip,
    }
}

} // verus!

verus! {

/// The state of reading a file's top level, as values: the token index, the imported
/// files, and the attributes and modifiers read for the next top element.
pub struct TopState {
    pub index: int,
    pub imports: Seq<Seq<char>>,
    pub attributes: Seq<AttributeView>,
    pub modifiers: Seq<Modifier>,
}

/// What reading the token at `s.index` of a file's top level does (see `top_action_of`
/// for the action): an import, attributes or modifiers are read; a trait's modifiers are
/// marked as a trait's. `None` where an import, attributes or modifiers cannot be read.
pub open spec fn top_token(tokens: Seq<Token>, buf: Seq<u8>, s: TopState) -> Option<(TopState, TopAction)> {
    let i = s.index;
    if !(0 <= i < tokens.len()) {
        None
    } else {
        let t = tokens[i];
        let action = top_action_of(t.token_type, s.modifiers);
        let next = TopState { index: i + 1, ..s };
        match action {
            TopAction::Import => if import_readable(tokens, buf, i + 1) {
                let u = tokens[i + 1];
                Some(
                    (
                        TopState {
                            index: import_end(tokens, i + 1),
                            imports: if u.token_type == TokenTypes::Identifier {
                                s.imports.push(token_text(buf, u))
                            } else {
                                s.imports
                            },
                            ..s
                        },
                        action,
                    ),
                )
            } else {
                None
            },
            TopAction::Attributes => match attributes_from(tokens, buf, i + 1) {
                Some((j, read)) => Some((TopState { index: j, attributes: s.attributes + read, ..s }, action)),
                None => None,
            },
            TopAction::Modifiers => match modifiers_from(tokens, buf, i + 1) {
                Some((j, read)) => Some((TopState { index: j, modifiers: s.modifiers + read, ..s }, action)),
                None => None,
            },
            TopAction::Trait => Some((TopState { modifiers: s.modifiers.push(Modifier::Trait), ..next }, action)),
            _ => Some((next, action)),
        }
    }
}

/// The state of reading a file's top level, as values.
pub open spec fn top_state(parser_utils: ParserUtils, attributes: Seq<Attribute>, modifiers: Seq<Modifier>) -> TopState {
    TopState {
        index: parser_utils.index as int,
        imports: texts(parser_utils.imports.imports@),
        attributes: attribute_views(attributes),
        modifiers,
    }
}

/// Reads one token of a file's top level (see `top_token`) and gives what the parser
/// does with it; the function, structure, trait or implementation that follows is read
/// by the caller, with the attributes and modifiers read so far.
pub fn parse_top_token(
    parser_utils: &mut ParserUtils,
    attributes: &mut Vec<Attribute>,
    modifiers: &mut Vec<Modifier>,
) -> (r: TopAction)
    requires
        top_token(old(parser_utils).tokens@, old(parser_utils).buffer@, top_state(*old(parser_utils), old(attributes)@, old(modifiers)@))
            is Some,
    ensures
        final(parser_utils).same_but_index_imports(*old(parser_utils)),
        top_token(old(parser_utils).tokens@, old(parser_utils).buffer@, top_state(*old(parser_utils), old(attributes)@, old(modifiers)@))
            == Some((top_state(*final(parser_utils), final(attributes)@, final(modifiers)@), r)),
{
    let ghost old_attributes = attribute_views(attributes@);
    let ghost old_modifiers = modifiers@;
    proof {
        assert(parser_utils.tokens.len() == parser_utils.tokens@.len());
    }
    let token = parser_utils.tokens[parser_utils.index];
    parser_utils.index += 1;
    let action = top_action(token.token_type, modifiers);
    match action {
        TopAction::Import => {
            parse_import(parser_utils);
        },
        TopAction::Attributes => {
            parse_attribute(parser_utils, attributes);
            proof {
                assert(attribute_views(attributes@) =~= attribute_views(attributes@).take(old_attributes.len() as int)
                    + attribute_views(attributes@).skip(old_attributes.len() as int));
            }
        },
        TopAction::Modifiers => {
            parse_modifier(parser_utils, modifiers);
            proof {
                assert(modifiers@ =~= modifiers@.take(old_modifiers.len() as int) + modifiers@.skip(
                    old_modifiers.len() as int,
                ));
            }
        },
        TopAction::Trait => {
            modifiers.push(Modifier::Trait);
        },
        _ => {},
    }
    action
}

} // verus!
