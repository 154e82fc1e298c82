//! Helpers of the first parser: lookahead, generics and fields.
use vstd::prelude::*;

use crate::parse_info::{lemma_pi_next, pi_next, pi_parse_to, pi_parse_to_or_end, Cursor, ParseInfo};
use crate::text::{chars_of, str_eq, string_of};

verus! {

pub proof fn lemma_parse_to_or_end_agrees(buf: Seq<u8>, m: Cursor, c: u8, end: int, acc: Seq<char>)
    ensures
        pi_parse_to_or_end(buf, m, c, end, acc) matches Some((m2, Some(s))) ==> pi_parse_to(buf, m, c, acc)
            == Some((m2, Some(s))),
    decreases buf.len() - m.index,
{
    if m.index < end {
        match pi_next(buf, m) {
            Some((m2, Some(ch))) => {
                if ch != c && m.index < m2.index <= buf.len() {
                    lemma_parse_to_or_end_agrees(buf, m2, c, end, acc.push(ch as char));
                }
            },
            _ => {},
        }
    }
}

pub proof fn lemma_parse_to_advances(buf: Seq<u8>, m: Cursor, c: u8, acc: Seq<char>)
    requires
        crate::parse_info::cursor_wf(buf, m),
    ensures
        pi_parse_to(buf, m, c, acc) matches Some((m2, Some(_))) ==> m.index < m2.index <= buf.len(),
        pi_parse_to(buf, m, c, acc) matches Some((m2, _)) ==> crate::parse_info::cursor_wf(buf, m2),
    decreases buf.len() - m.index,
{
    lemma_pi_next(buf, m);
    match pi_next(buf, m) {
        Some((m2, Some(ch))) => {
            if ch != c && m.index < m2.index <= buf.len() {
                lemma_parse_to_advances(buf, m2, c, acc.push(ch as char));
            }
        },
        _ => {},
    }
}

/// What `find_if_first` does: if `first` comes before the next `second`, the text up to
/// `first` (the cursor moving past it); else `None` inside and the cursor stays. `None`
/// where the lookahead cannot be made.
pub open spec fn if_first(buf: Seq<u8>, m: Cursor, first: u8, second: u8) -> Option<(Cursor, Option<Seq<char>>)> {
    match pi_parse_to(buf, m, second, Seq::empty()) {
        None => None,
        Some((_, None)) => Some((m, None)),
        Some((m2, Some(_))) => match pi_parse_to_or_end(buf, m, first, m2.index, Seq::empty()) {
            None => None,
            Some((_, None)) => Some((m, None)),
            Some((_, Some(_))) => pi_parse_to(buf, m, first, Seq::empty()),
        },
    }
}

/// Reads up to `first` if it comes before the next `second` (see `if_first`).
pub fn find_if_first(parsing: &mut ParseInfo, first: u8, second: u8) -> (r: Option<String>)
    requires
        old(parsing).wf(),
        if_first(old(parsing).buffer@, old(parsing)@, first, second) is Some,
    ensures
        final(parsing).wf(),
        final(parsing).same_but_cursor(*old(parsing)),
        if_first(old(parsing).buffer@, old(parsing)@, first, second) == Some(
            (
                final(parsing)@,
                match r {
                    Some(s) => Some(s@),
                    None => None::<Seq<char>>,
                },
            ),
        ),
        r is None ==> final(parsing)@ == old(parsing)@,
{
    let ghost buf = parsing.buffer@;
    let ghost m = parsing@;
    let mut ahead = parsing.fork();
    if let Some(_) = ahead.parse_to(second) {
        let mut probe = parsing.fork();
        proof {
            lemma_parse_to_or_end_agrees(buf, m, first, ahead@.index, Seq::empty());
        }
        if let Some(_) = probe.parse_to_or_end(first, ahead.index) {
            return Some(parsing.parse_to(first).unwrap());
        }
    }
    None
}

/// The pieces of `s` between the separators `sep` from `i` on, the piece read so far being
/// `cur` and those before it `done` (as `str::split` gives them: at least one piece, empty
/// pieces kept).
pub open spec fn split_from(s: Seq<char>, sep: char, i: int, cur: Seq<char>, done: Seq<Seq<char>>) -> Seq<Seq<char>>
    decreases s.len() - i,
{
    if i < 0 || i >= s.len() {
        done.push(cur)
    } else if s[i] == sep {
        split_from(s, sep, i + 1, Seq::empty(), done.push(cur))
    } else {
        split_from(s, sep, i + 1, cur.push(s[i]), done)
    }
}

/// The pieces of `s` between the separators `sep`.
pub open spec fn split_on(s: Seq<char>, sep: char) -> Seq<Seq<char>> {
    split_from(s, sep, 0, Seq::empty(), Seq::empty())
}

pub(crate) proof fn lemma_split_from_len(s: Seq<char>, sep: char, i: int, cur: Seq<char>, done: Seq<Seq<char>>)
    ensures
        split_from(s, sep, i, cur, done).len() > done.len(),
        split_from(s, sep, i, cur, done).take(done.len() as int) == done,
    decreases s.len() - i,
{
    if 0 <= i < s.len() {
        if s[i] == sep {
            lemma_split_from_len(s, sep, i + 1, Seq::empty(), done.push(cur));
            assert(split_from(s, sep, i, cur, done).take(done.len() + 1int).take(done.len() as int) =~= split_from(s, sep, i, cur, done).take(done.len() as int));
            assert(done.push(cur).take(done.len() as int) =~= done);
        } else {
            lemma_split_from_len(s, sep, i + 1, cur.push(s[i]), done);
        }
    } else {
        assert(done.push(cur).take(done.len() as int) =~= done);
    }
}

/// `s` without its spaces.
pub open spec fn without_spaces(s: Seq<char>) -> Seq<char>
    decreases s.len(),
{
    if s.len() == 0 {
        s
    } else if s.last() == ' ' {
        without_spaces(s.drop_last())
    } else {
        without_spaces(s.drop_last()).push(s.last())
    }
}

/// Splits `s` at each `sep`.
pub(crate) fn split_chars(s: &Vec<char>, sep: char) -> (r: Vec<Vec<char>>)
    ensures
        r@.len() == split_on(s@, sep).len(),
        forall|k: int| 0 <= k < r@.len() ==> #[trigger] r@[k]@ == split_on(s@, sep)[k],
{
    let mut done: Vec<Vec<char>> = Vec::new();
    let mut cur: Vec<char> = Vec::new();
    let mut i: usize = 0;
    proof {
        assert(done@.map_values(|v: Vec<char>| v@) =~= Seq::<Seq<char>>::empty());
        assert(cur@ =~= Seq::<char>::empty());
    }
    while i < s.len()
        invariant
            i <= s@.len(),
            split_from(s@, sep, i as int, cur@, done@.map_values(|v: Vec<char>| v@)) == split_on(s@, sep),
        decreases s@.len() - i,
    {
        if s[i] == sep {
            let piece = cur;
            cur = Vec::new();
            let ghost before = done@.map_values(|v: Vec<char>| v@);
            done.push(piece);
            proof {
                assert(done@.map_values(|v: Vec<char>| v@) =~= before.push(piece@));
            }
        } else {
            cur.push(s[i]);
        }
        i += 1;
    }
    let ghost before = done@.map_values(|v: Vec<char>| v@);
    done.push(cur);
    proof {
        assert(done@.map_values(|v: Vec<char>| v@) =~= before.push(cur@));
        assert forall|k: int| 0 <= k < done@.len() implies #[trigger] done@[k]@ == split_on(s@, sep)[k] by {
            assert(done@.map_values(|v: Vec<char>| v@)[k] == done@[k]@);
        }
    }
    done
}

/// The characters of `s` without its spaces.
fn strip_spaces(s: &Vec<char>) -> (r: Vec<char>)
    ensures
        r@ == without_spaces(s@),
{
    let mut out: Vec<char> = Vec::new();
    let mut i: usize = 0;
    while i < s.len()
        invariant
            i <= s@.len(),
            out@ == without_spaces(s@.take(i as int)),
        decreases s@.len() - i,
    {
        proof {
            assert(s@.take(i + 1).drop_last() =~= s@.take(i as int));
        }
        if s[i] != ' ' {
            out.push(s[i]);
        }
        i += 1;
    }
    proof {
        assert(s@.take(i as int) =~= s@);
    }
    out
}

/// A generic as written, split into its name and its bounds: the name is the text before
/// the first `:`; the bounds are the text between the first and the second `:`, split at
/// each `+`, each without its spaces.
pub open spec fn generic_parts(v: Seq<char>) -> (Seq<char>, Seq<Seq<char>>) {
    let pieces = split_on(v, ':');
    (
        pieces[0],
        if pieces.len() > 1 {
            split_on(pieces[1], '+').map_values(|p: Seq<char>| without_spaces(p))
        } else {
            Seq::empty()
        },
    )
}

/// A name with its bounds, as values.
pub open spec fn pair_view(p: (String, Vec<String>)) -> (Seq<char>, Seq<Seq<char>>) {
    (p.0@, p.1@.map_values(|s: String| s@))
}

/// Splits a generic into its name and its bounds (see `generic_parts`).
pub fn parse_generic(value: String) -> (r: (String, Vec<String>))
    ensures
        pair_view(r) == generic_parts(value@),
{
    let chars = chars_of(value.as_str());
    let split = split_chars(&chars, ':');
    proof {
        lemma_split_from_len(chars@, ':', 0, Seq::empty(), Seq::empty());
    }
    let name = string_of(split[0].as_slice());
    let mut found: Vec<String> = Vec::new();
    if split.len() > 1 {
        let constraints = split_chars(&split[1], '+');
        let ghost spec_parts = split_on(split@[1]@, '+').map_values(|p: Seq<char>| without_spaces(p));
        let mut i: usize = 0;
        while i < constraints.len()
            invariant
                i <= constraints@.len(),
                constraints@.len() == spec_parts.len(),
                forall|k: int| 0 <= k < constraints@.len() ==> #[trigger] without_spaces(constraints@[k]@) == spec_parts[k],
                found@.len() == i,
                forall|k: int| 0 <= k < i ==> #[trigger] found@[k]@ == spec_parts[k],
            decreases constraints@.len() - i,
        {
            let stripped = strip_spaces(&constraints[i]);
            found.push(string_of(stripped.as_slice()));
            i += 1;
        }
        proof {
            assert(found@.map_values(|s: String| s@) =~= spec_parts);
        }
    } else {
        proof {
            assert(found@.map_values(|s: String| s@) =~= Seq::<Seq<char>>::empty());
        }
    }
    (name, found)
}

/// The generics read from `m` on, after those in `acc`: each that a `,` ends before the
/// next `>`, then the last, which the `>` ends. `None` where one cannot be read, as where
/// no `>` follows.
pub open spec fn generics_from(buf: Seq<u8>, m: Cursor, acc: Seq<Seq<char>>) -> Option<(Cursor, Seq<Seq<char>>)>
    decreases buf.len() - m.index,
{
    match if_first(buf, m, 44, 62) {
        None => None,
        Some((m2, Some(v))) => if m.index < m2.index <= buf.len() {
            generics_from(buf, m2, acc.push(v))
        } else {
            None
        },
        Some((_, None)) => match pi_parse_to(buf, m, 62, Seq::empty()) {
            Some((m3, Some(v))) => Some((m3, acc.push(v))),
            _ => None,
        },
    }
}

/// Reads the generics of a declaration up to the closing `>` (see `generics_from`), and
/// appends each, split into name and bounds, to `generics`.
pub fn parse_generics_vec(parsing: &mut ParseInfo, generics: &mut Vec<(String, Vec<String>)>)
    requires
        old(parsing).wf(),
        generics_from(old(parsing).buffer@, old(parsing)@, Seq::empty()) is Some,
    ensures
        final(parsing).wf(),
        final(parsing).same_but_cursor(*old(parsing)),
        ({
            let (m, list) = generics_from(old(parsing).buffer@, old(parsing)@, Seq::empty()).unwrap();
            &&& final(parsing)@ == m
            &&& final(generics)@.map_values(|p: (String, Vec<String>)| pair_view(p)) == old(generics)@.map_values(
                |p: (String, Vec<String>)| pair_view(p),
            ) + list.map_values(|v: Seq<char>| generic_parts(v))
        }),
{
    let ghost buf = parsing.buffer@;
    let ghost done: Seq<Seq<char>> = Seq::empty();
    proof {
        assert(old(generics)@.map_values(|p: (String, Vec<String>)| pair_view(p)) + done.map_values(
            |v: Seq<char>| generic_parts(v),
        ) =~= old(generics)@.map_values(|p: (String, Vec<String>)| pair_view(p)));
    }
    loop
        invariant
            parsing.wf(),
            parsing.same_but_cursor(*old(parsing)),
            buf == parsing.buffer@,
            generics_from(buf, parsing@, done) == generics_from(buf, old(parsing)@, Seq::empty()),
            generics_from(buf, parsing@, done) is Some,
            generics@.map_values(|p: (String, Vec<String>)| pair_view(p)) == old(generics)@.map_values(
                |p: (String, Vec<String>)| pair_view(p),
            ) + done.map_values(|v: Seq<char>| generic_parts(v)),
        decreases parsing.len - parsing.index,
    {
        let ghost pre = parsing@;
        match find_if_first(parsing, 44, 62) {
            Some(value) => {
                let ghost v = value@;
                let pair = parse_generic(value);
                let ghost before = generics@.map_values(|p: (String, Vec<String>)| pair_view(p));
                generics.push(pair);
                proof {
                    assert(generics@.map_values(|p: (String, Vec<String>)| pair_view(p)) =~= before.push(
                        generic_parts(v),
                    ));
                    assert(done.push(v).map_values(|v: Seq<char>| generic_parts(v)) =~= done.map_values(
                        |v: Seq<char>| generic_parts(v),
                    ).push(generic_parts(v)));
                    done = done.push(v);
                }
            },
            None => {
                proof {
                    lemma_parse_to_advances(buf, parsing@, 62, Seq::empty());
                    assert(parsing@ == pre);
                    assert(if_first(buf, pre, 44, 62) == Some((pre, None::<Seq<char>>)));
                    assert(generics_from(buf, pre, done) is Some);
                    assert(pi_parse_to(buf, pre, 62, Seq::empty()) matches Some((_, Some(_))));
                }
                let value = parsing.parse_to(62).unwrap();
                let ghost v = value@;
                let pair = parse_generic(value);
                let ghost before = generics@.map_values(|p: (String, Vec<String>)| pair_view(p));
                generics.push(pair);
                proof {
                    assert(generics@.map_values(|p: (String, Vec<String>)| pair_view(p)) =~= before.push(
                        generic_parts(v),
                    ));
                    assert(done.push(v).map_values(|v: Seq<char>| generic_parts(v)) =~= done.map_values(
                        |v: Seq<char>| generic_parts(v),
                    ).push(generic_parts(v)));
                }
                return;
            },
        }
    }
}

} // verus!

verus! {

/// The first index from `i` on whose name is `key`.
pub open spec fn key_index<V>(v: Seq<(Seq<char>, V)>, key: Seq<char>, i: int) -> Option<int>
    decreases v.len() - i,
{
    if i < 0 || i >= v.len() {
        None
    } else if v[i].0 == key {
        Some(i)
    } else {
        key_index(v, key, i + 1)
    }
}

/// `v` with the entry for `p`'s name replaced by `p`, or `p` added where there is none (as
/// a map's insert does).
pub open spec fn upsert<V>(v: Seq<(Seq<char>, V)>, p: (Seq<char>, V)) -> Seq<
    (Seq<char>, V),
> {
    match key_index(v, p.0, 0) {
        Some(i) => v.update(i, p),
        None => v.push(p),
    }
}

/// `v` with each entry of `list` upserted in turn.
pub open spec fn upsert_all<V>(v: Seq<(Seq<char>, V)>, list: Seq<(Seq<char>, V)>) -> Seq<
    (Seq<char>, V),
>
    decreases list.len(),
{
    if list.len() == 0 {
        v
    } else {
        upsert(upsert_all(v, list.drop_last()), list.last())
    }
}

/// No two entries have the same name.
pub open spec fn names_distinct<V>(v: Seq<(Seq<char>, V)>) -> bool {
    forall|i: int, j: int| 0 <= i < j < v.len() ==> v[i].0 != v[j].0
}

proof fn lemma_key_index<V>(v: Seq<(Seq<char>, V)>, key: Seq<char>, i: int)
    requires
        0 <= i,
    ensures
        key_index(v, key, i) matches Some(k) ==> i <= k < v.len() && v[k].0 == key,
        key_index(v, key, i) is None ==> forall|k: int| i <= k < v.len() ==> v[k].0 != key,
    decreases v.len() - i,
{
    if i < v.len() && v[i].0 != key {
        lemma_key_index(v, key, i + 1);
    }
}

/// Law: upserting keeps the names of a list distinct, as the keys of a map are.
pub proof fn law_upsert_keeps_names_distinct<V>(v: Seq<(Seq<char>, V)>, p: (Seq<char>, V))
    requires
        names_distinct(v),
    ensures
        names_distinct(upsert(v, p)),
        upsert(v, p).contains(p),
{
    lemma_key_index(v, p.0, 0);
    match key_index(v, p.0, 0) {
        Some(i) => {
            assert(upsert(v, p)[i] == p);
        },
        None => {
            assert(upsert(v, p)[v.len() as int] == p);
        },
    }
}

/// Upserts a name and its bounds into `generics`.
fn upsert_generic(generics: &mut Vec<(String, Vec<String>)>, pair: (String, Vec<String>))
    ensures
        final(generics)@.map_values(|p: (String, Vec<String>)| pair_view(p)) == upsert(
            old(generics)@.map_values(|p: (String, Vec<String>)| pair_view(p)),
            pair_view(pair),
        ),
{
    let ghost views = generics@.map_values(|p: (String, Vec<String>)| pair_view(p));
    let mut i: usize = 0;
    while i < generics.len()
        invariant
            i <= generics@.len(),
            *generics == *old(generics),
            views == generics@.map_values(|p: (String, Vec<String>)| pair_view(p)),
            key_index(views, pair.0@, 0) == key_index(views, pair.0@, i as int),
        decreases generics@.len() - i,
    {
        if generics[i].0 == pair.0 {
            let ghost before = generics@;
            generics.set(i, pair);
            proof {
                assert(generics@.map_values(|p: (String, Vec<String>)| pair_view(p)) =~= views.update(
                    i as int,
                    pair_view(pair),
                ));
            }
            return;
        }
        i += 1;
    }
    generics.push(pair);
    proof {
        assert(generics@.map_values(|p: (String, Vec<String>)| pair_view(p)) =~= views.push(pair_view(pair)));
    }
}

/// Reads the generics of a declaration up to the closing `>` (see `generics_from`) into
/// `generics`, a generic read later replacing one of the same name.
pub fn parse_generics(parsing: &mut ParseInfo, generics: &mut Vec<(String, Vec<String>)>)
    requires
        old(parsing).wf(),
        generics_from(old(parsing).buffer@, old(parsing)@, Seq::empty()) is Some,
    ensures
        final(parsing).wf(),
        final(parsing).same_but_cursor(*old(parsing)),
        ({
            let (m, list) = generics_from(old(parsing).buffer@, old(parsing)@, Seq::empty()).unwrap();
            &&& final(parsing)@ == m
            &&& final(generics)@.map_values(|p: (String, Vec<String>)| pair_view(p)) == upsert_all(
                old(generics)@.map_values(|p: (String, Vec<String>)| pair_view(p)),
                list.map_values(|v: Seq<char>| generic_parts(v)),
            )
        }),
{
    let ghost buf = parsing.buffer@;
    let ghost done: Seq<Seq<char>> = Seq::empty();
    let ghost start = old(generics)@.map_values(|p: (String, Vec<String>)| pair_view(p));
    proof {
        assert(done.map_values(|v: Seq<char>| generic_parts(v)) =~= Seq::<(Seq<char>, Seq<Seq<char>>)>::empty());
    }
    loop
        invariant
            parsing.wf(),
            parsing.same_but_cursor(*old(parsing)),
            buf == parsing.buffer@,
            start == old(generics)@.map_values(|p: (String, Vec<String>)| pair_view(p)),
            generics_from(buf, parsing@, done) == generics_from(buf, old(parsing)@, Seq::empty()),
            generics_from(buf, parsing@, done) is Some,
            generics@.map_values(|p: (String, Vec<String>)| pair_view(p)) == upsert_all(
                start,
                done.map_values(|v: Seq<char>| generic_parts(v)),
            ),
        decreases parsing.len - parsing.index,
    {
        let ghost pre = parsing@;
        match find_if_first(parsing, 44, 62) {
            Some(value) => {
                let ghost v = value@;
                let pair = parse_generic(value);
                upsert_generic(generics, pair);
                proof {
                    let list = done.push(v).map_values(|v: Seq<char>| generic_parts(v));
                    assert(list.drop_last() =~= done.map_values(|v: Seq<char>| generic_parts(v)));
                    done = done.push(v);
                }
            },
            None => {
                proof {
                    lemma_parse_to_advances(buf, pre, 62, Seq::empty());
                    assert(if_first(buf, pre, 44, 62) == Some((pre, None::<Seq<char>>)));
                }
                let value = parsing.parse_to(62).unwrap();
                let ghost v = value@;
                let pair = parse_generic(value);
                upsert_generic(generics, pair);
                proof {
                    let list = done.push(v).map_values(|v: Seq<char>| generic_parts(v));
                    assert(list.drop_last() =~= done.map_values(|v: Seq<char>| generic_parts(v)));
                }
                return;
            },
        }
    }
}

} // verus!

verus! {

/// Why a field cannot be read.
#[derive(Clone, Copy, Debug, PartialEq, Eq, Structural)]
pub enum FieldError {
    /// The field has no `name: type` form
    MissingType,
    /// A `self` field outside of a structure
    SelfOutsideStruct,
}

impl FieldError {
    /// The message of the error
    pub fn message(&self) -> (r: &'static str)
        ensures
            r == (match *self {
                FieldError::MissingType => "Missing type for field.",
                FieldError::SelfOutsideStruct => "Cannot have self outside of struct!",
            }),
    {
        match self {
            FieldError::MissingType => "Missing type for field.",
            FieldError::SelfOutsideStruct => "Cannot have self outside of struct!",
        }
    }
}

/// A field written `name: type`, as its name and type: the name is the text before the
/// first `:`, the type the rest without spaces. A type holding `)` is only accepted for a
/// `self` field, whose type is then the enclosing structure `parent`.
pub open spec fn field_parts(parent: Option<Seq<char>>, s: Seq<char>) -> Result<(Seq<char>, Seq<char>), FieldError> {
    let name = split_on(s, ':')[0];
    if name.len() == s.len() {
        Err(FieldError::MissingType)
    } else {
        let body = without_spaces(s.subrange(name.len() + 1int, s.len() as int));
        if body.contains(')') {
            if name == "self"@ {
                match parent {
                    Some(p) => Ok(("self"@, p)),
                    None => Err(FieldError::SelfOutsideStruct),
                }
            } else {
                Err(FieldError::MissingType)
            }
        } else {
            Ok((name, body))
        }
    }
}

proof fn lemma_split_first_piece(s: Seq<char>, sep: char, i: int, cur: Seq<char>, done: Seq<Seq<char>>)
    requires
        0 <= i <= s.len(),
        cur.len() == i,
        done.len() == 0,
        forall|k: int| 0 <= k < i ==> s[k] != sep && cur[k] == s[k],
    ensures
        split_from(s, sep, i, cur, done)[0].len() <= s.len(),
        forall|k: int| 0 <= k < split_from(s, sep, i, cur, done)[0].len() ==> #[trigger] split_from(s, sep, i, cur, done)[0][k] == s[k],
        split_from(s, sep, i, cur, done)[0].len() < s.len() ==> s[split_from(s, sep, i, cur, done)[0].len() as int] == sep,
    decreases s.len() - i,
{
    if i < s.len() {
        if s[i] == sep {
            lemma_split_from_len(s, sep, i + 1, Seq::empty(), done.push(cur));
            assert(split_from(s, sep, i + 1, Seq::empty(), done.push(cur)).take(1)[0] == done.push(cur)[0]);
        } else {
            lemma_split_first_piece(s, sep, i + 1, cur.push(s[i]), done);
        }
    }
}

/// An optional text as an optional sequence of characters.
pub open spec fn opt_view(o: Option<String>) -> Option<Seq<char>> {
    match o {
        Some(p) => Some(p@),
        None => None,
    }
}

/// Reads a field written `name: type` (see `field_parts`).
pub fn parse_field(parent: &Option<String>, string: String) -> (r: Result<(String, String), FieldError>)
    ensures
        field_parts(
            opt_view(*parent),
            string@,
        ) == match r {
            Ok((name, field_type)) => Ok((name@, field_type@)),
            Err(e) => Err::<(Seq<char>, Seq<char>), FieldError>(e),
        },
{
    let chars = chars_of(string.as_str());
    let parts = split_chars(&chars, ':');
    proof {
        lemma_split_from_len(chars@, ':', 0, Seq::empty(), Seq::empty());
        lemma_split_first_piece(chars@, ':', 0, Seq::empty(), Seq::empty());
    }
    let name_len = parts[0].len();
    if name_len == chars.len() {
        return Err(FieldError::MissingType);
    }
    let mut rest: Vec<char> = Vec::new();
    let mut i = name_len + 1;
    while i < chars.len()
        invariant
            name_len + 1 <= i <= chars@.len(),
            rest@ == chars@.subrange(name_len + 1, i as int),
        decreases chars@.len() - i,
    {
        rest.push(chars[i]);
        i += 1;
    }
    let body = strip_spaces(&rest);
    let mut closes = false;
    let mut k: usize = 0;
    while k < body.len()
        invariant
            k <= body@.len(),
            closes == body@.take(k as int).contains(')'),
        decreases body@.len() - k,
    {
        let ghost prev = body@.take(k as int);
        proof {
            assert(body@.take(k + 1) =~= prev.push(body@[k as int]));
            if prev.contains(')') {
                let w = choose|w: int| 0 <= w < prev.len() && prev[w] == ')';
                assert(body@.take(k + 1)[w] == ')');
            }
            if body@[k as int] == ')' {
                assert(body@.take(k + 1)[k as int] == ')');
            }
        }
        if body[k] == ')' {
            closes = true;
        }
        k += 1;
    }
    proof {
        assert(body@.take(k as int) =~= body@);
    }
    let name = string_of(parts[0].as_slice());
    if closes {
        if str_eq(name.as_str(), "self") {
            match parent {
                Some(p) => Ok(("self".to_owned(), p.clone())),
                None => Err(FieldError::SelfOutsideStruct),
            }
        } else {
            Err(FieldError::MissingType)
        }
    } else {
        Ok((name, string_of(body.as_slice())))
    }
}

/// A field as values.
pub open spec fn field_view(f: (String, String)) -> (Seq<char>, Seq<char>) {
    (f.0@, f.1@)
}

/// The fields read from `m` on, after those in `acc`: each that a `,` ends before the next
/// `)`, then the last, which the `)` ends (if it is not empty); reading stops at the first
/// field in error. `None` where the lookahead cannot be made.
pub open spec fn fields_from(
    buf: Seq<u8>,
    m: Cursor,
    parent: Option<Seq<char>>,
    acc: Seq<(Seq<char>, Seq<char>)>,
) -> Option<(Cursor, Result<Seq<(Seq<char>, Seq<char>)>, FieldError>)>
    decreases buf.len() - m.index,
{
    match if_first(buf, m, 44, 41) {
        None => None,
        Some((m2, Some(v))) => if m.index < m2.index <= buf.len() {
            match field_parts(parent, v) {
                Err(e) => Some((m2, Err(e))),
                Ok(f) => fields_from(buf, m2, parent, acc.push(f)),
            }
        } else {
            None
        },
        Some((_, None)) => match pi_parse_to(buf, m, 41, Seq::empty()) {
            None => None,
            Some((m3, None)) => Some((m3, Ok(acc))),
            Some((m3, Some(v))) => if v.len() == 0 {
                Some((m3, Ok(acc)))
            } else {
                match field_parts(parent, v) {
                    Err(e) => Some((m3, Err(e))),
                    Ok(f) => Some((m3, Ok(acc.push(f)))),
                }
            },
        },
    }
}

/// Reads the fields of a function up to the closing `)` (see `fields_from`).
pub fn parse_fields(parent: Option<String>, parsing: &mut ParseInfo) -> (r: Result<Vec<(String, String)>, FieldError>)
    requires
        old(parsing).wf(),
        fields_from(
            old(parsing).buffer@,
            old(parsing)@,
            opt_view(parent),
            Seq::empty(),
        ) is Some,
    ensures
        final(parsing).wf(),
        final(parsing).same_but_cursor(*old(parsing)),
        fields_from(
            old(parsing).buffer@,
            old(parsing)@,
            opt_view(parent),
            Seq::empty(),
        ) == Some(
            (
                final(parsing)@,
                match r {
                    Ok(v) => Ok(v@.map_values(|f: (String, String)| field_view(f))),
                    Err(e) => Err(e),
                },
            ),
        ),
{
    let ghost buf = parsing.buffer@;
    let ghost parent_view = opt_view(parent);
    let mut output: Vec<(String, String)> = Vec::new();
    proof {
        assert(output@.map_values(|f: (String, String)| field_view(f)) =~= Seq::<(Seq<char>, Seq<char>)>::empty());
    }
    loop
        invariant
            parsing.wf(),
            parsing.same_but_cursor(*old(parsing)),
            buf == parsing.buffer@,
            parent_view == opt_view(parent),
            fields_from(buf, parsing@, parent_view, output@.map_values(|f: (String, String)| field_view(f)))
                == fields_from(buf, old(parsing)@, parent_view, Seq::empty()),
            fields_from(buf, parsing@, parent_view, output@.map_values(|f: (String, String)| field_view(f))) is Some,
        decreases parsing.len - parsing.index,
    {
        let ghost pre = parsing@;
        let ghost before = output@.map_values(|f: (String, String)| field_view(f));
        match find_if_first(parsing, 44, 41) {
            Some(found) => {
                match parse_field(&parent, found) {
                    Ok(field) => {
                        output.push(field);
                        proof {
                            assert(output@.map_values(|f: (String, String)| field_view(f)) =~= before.push(field_view(field)));
                        }
                    },
                    Err(e) => {
                        return Err(e);
                    },
                }
            },
            None => {
                proof {
                    assert(if_first(buf, pre, 44, 41) == Some((pre, None::<Seq<char>>)));
                }
                if let Some(found) = parsing.parse_to(41) {
                    if !found.as_str().is_empty() {
                        match parse_field(&parent, found) {
                            Ok(field) => {
                                output.push(field);
                                proof {
                                    assert(output@.map_values(|f: (String, String)| field_view(f)) =~= before.push(field_view(field)));
                                }
                            },
                            Err(e) => {
                                return Err(e);
                            },
                        }
                    }
                }
                return Ok(output);
            },
        }
    }
}

/// Reads the fields of a structure; there is nothing to read yet.
pub fn parse_struct_fields() {
}

} // verus!
