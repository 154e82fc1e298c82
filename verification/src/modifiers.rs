//! Modifiers and attributes of structures, traits, functions and fields.
//!
//! A list of modifiers is packed into a `u8`, one bit per modifier.
use vstd::prelude::*;

use crate::text::str_eq;

verus! {

/// All the modifiers structures/functions/fields can have
#[derive(Clone, Copy, PartialEq, Eq, Debug, Structural)]
pub enum Modifier {
    /// Public can be accessed from anywhere
    Public,
    /// Protected can only be accessed from the same project
    Protected,
    /// Extern is linked to an external binary
    Extern,
    /// Internal is implemented by the compiler
    Internal,
    /// Hidden from the user, only used internally
    Trait,
}

/// The bit of a modifier in the packed form.
pub open spec fn modifier_bit(m: Modifier) -> u8 {
    match m {
        Modifier::Public => 1,
        Modifier::Protected => 2,
        Modifier::Extern => 4,
        Modifier::Internal => 8,
        Modifier::Trait => 16,
    }
}

/// The source text of a modifier (the trait modifier has none).
pub open spec fn modifier_text(m: Modifier) -> &'static str {
    match m {
        Modifier::Public => "pub",
        Modifier::Protected => "pub(proj)",
        Modifier::Extern => "extern",
        Modifier::Internal => "internal",
        Modifier::Trait => "",
    }
}

/// The modifiers a source file can spell, in the order they are tried.
pub open spec fn all_modifiers() -> Seq<Modifier> {
    seq![Modifier::Public, Modifier::Protected, Modifier::Extern, Modifier::Internal]
}

/// All the modifiers that can be written in source, in the order they are tried.
pub fn writable_modifiers() -> (r: [Modifier; 4])
    ensures
        r@ == all_modifiers(),
{
    [Modifier::Public, Modifier::Protected, Modifier::Extern, Modifier::Internal]
}

impl Modifier {
    /// The modifier's bit in the packed form
    pub fn bits(&self) -> (r: u8)
        ensures
            r == modifier_bit(*self),
    {
        match self {
            Modifier::Public => 1,
            Modifier::Protected => 2,
            Modifier::Extern => 4,
            Modifier::Internal => 8,
            Modifier::Trait => 16,
        }
    }

    /// How the modifier is written in source. The trait modifier is never written.
    pub fn name(&self) -> (r: &'static str)
        requires
            *self != Modifier::Trait,
        ensures
            r == modifier_text(*self),
    {
        match self {
            Modifier::Public => "pub",
            Modifier::Protected => "pub(proj)",
            Modifier::Extern => "extern",
            Modifier::Internal => "internal",
            Modifier::Trait => "",
        }
    }
}

/// The sum of the bits of a list of modifiers.
pub open spec fn modifier_sum(list: Seq<Modifier>) -> int
    decreases list.len(),
{
    if list.len() == 0 {
        0
    } else {
        modifier_sum(list.drop_last()) + modifier_bit(list.last())
    }
}

/// Gets the modifier in numerical form from list form
pub fn get_modifier(modifiers: &[Modifier]) -> (r: u8)
    requires
        modifier_sum(modifiers@) <= 255,
    ensures
        r == modifier_sum(modifiers@),
{
    let mut sum: u8 = 0;
    let mut i: usize = 0;
    while i < modifiers.len()
        invariant
            i <= modifiers@.len(),
            sum == modifier_sum(modifiers@.take(i as int)),
            modifier_sum(modifiers@) <= 255,
        decreases modifiers@.len() - i,
    {
        proof {
            assert(modifiers@.take(i + 1).drop_last() =~= modifiers@.take(i as int));
            lemma_sum_prefix(modifiers@, i + 1);
        }
        sum += modifiers[i].bits();
        i += 1;
    }
    proof {
        assert(modifiers@.take(i as int) =~= modifiers@);
    }
    sum
}

proof fn lemma_sum_prefix(list: Seq<Modifier>, n: int)
    requires
        0 <= n <= list.len(),
    ensures
        modifier_sum(list.take(n)) <= modifier_sum(list),
    decreases list.len(),
{
    if n < list.len() {
        assert(list.drop_last().take(n) =~= list.take(n));
        lemma_sum_prefix(list.drop_last(), n);
    } else {
        assert(list.take(n) =~= list);
    }
}

/// Checks if the numerical modifier contains the given modifier
pub fn is_modifier(modifiers: u8, target: Modifier) -> (r: bool)
    ensures
        r == (modifiers & modifier_bit(target) == modifier_bit(target)),
{
    let target = target.bits();
    modifiers & target == target
}

/// The modifiers among the first `n` writable ones whose bit is set in `from`.
pub open spec fn selected_modifiers(from: u8, n: int) -> Seq<Modifier>
    decreases n,
{
    if n <= 0 {
        seq![]
    } else {
        let m = all_modifiers()[n - 1];
        let rest = selected_modifiers(from, n - 1);
        if from & modifier_bit(m) != 0 {
            rest.push(m)
        } else {
            rest
        }
    }
}

/// Converts the numerical form of modifiers to list form
pub fn to_modifiers(from: u8) -> (r: Vec<Modifier>)
    ensures
        r@ == selected_modifiers(from, 4),
{
    let mut modifiers: Vec<Modifier> = Vec::new();
    let all = writable_modifiers();
    let mut i: usize = 0;
    while i < 4
        invariant
            i <= 4,
            all@ == all_modifiers(),
            modifiers@ == selected_modifiers(from, i as int),
        decreases 4 - i,
    {
        let modifier = all[i];
        if from & modifier.bits() != 0 {
            modifiers.push(modifier);
        }
        i += 1;
    }
    modifiers
}

proof fn lemma_bits_disjoint(a: Modifier, b: Modifier)
    ensures
        a != b ==> modifier_bit(a) & modifier_bit(b) == 0,
        modifier_bit(a) & modifier_bit(a) == modifier_bit(a),
{
    let x = modifier_bit(a);
    let y = modifier_bit(b);
    assert(x & x == x) by (bit_vector);
    if a != b {
        assert(
            (x == 1 || x == 2 || x == 4 || x == 8 || x == 16) && (y == 1 || y == 2 || y == 4 || y == 8 || y == 16) && x != y ==> x & y == 0
        ) by (bit_vector);
    }
}

/// Law: a list of distinct modifiers packs into a number below 32 that holds exactly the
/// bits of the modifiers in the list, so `is_modifier` on the packed form answers whether a
/// modifier is in the list.
pub proof fn law_is_modifier_of_packed(list: Seq<Modifier>, m: Modifier)
    requires
        list.no_duplicates(),
    ensures
        0 <= modifier_sum(list) < 32,
        (modifier_sum(list) as u8) & modifier_bit(m) == modifier_bit(m) <==> list.contains(m),
        !list.contains(m) ==> (modifier_sum(list) as u8) & modifier_bit(m) == 0,
    decreases list.len(),
{
    if list.len() > 0 {
        let rest = list.drop_last();
        let l = list.last();
        assert(rest.no_duplicates());
        assert(!rest.contains(l)) by {
            if rest.contains(l) {
                let k = choose|k: int| 0 <= k < rest.len() && rest[k] == l;
                assert(list[k] == list[list.len() - 1]);
            }
        }
        law_is_modifier_of_packed(rest, m);
        law_is_modifier_of_packed(rest, l);
        lemma_bits_disjoint(l, m);
        let x = modifier_sum(rest) as u8;
        let b = modifier_bit(l);
        let c = modifier_bit(m);
        assert(x & b == 0);
        assert(x == modifier_sum(rest));
        assert(b == 1 || b == 2 || b == 4 || b == 8 || b == 16);
        assert(x < 32 && (b == 1 || b == 2 || b == 4 || b == 8 || b == 16) && x & b == 0 ==> x + b < 32 && x + b == x | b) by (bit_vector);
        assert((x | b) & c == (x & c) | (b & c)) by (bit_vector);
        assert(x & c == 0 ==> (x & c) | c == c) by (bit_vector);
        assert(forall|y: u8| (y | 0u8) == y) by (bit_vector);
        assert(forall|y: u8| (0u8 | y) == y) by (bit_vector);
        assert(list =~= rest.push(l));
        assert(modifier_sum(list) == modifier_sum(rest) + b);
        let sum = modifier_sum(list) as u8;
        assert(sum == x + b);
        assert(sum == x | b);
        assert(sum & c == (x & c) | (b & c));
        if m == l {
            assert(list.contains(m)) by {
                assert(list[list.len() - 1] == m);
            }
            assert(x & c == 0);
            assert(b & c == c);
            assert(sum & c == c);
        } else {
            assert(b & c == 0);
            assert(sum & c == x & c);
            assert(list.contains(m) <==> rest.contains(m)) by {
                if list.contains(m) {
                    let k = choose|k: int| 0 <= k < list.len() && list[k] == m;
                    assert(k < list.len() - 1);
                    assert(rest[k] == m);
                }
                if rest.contains(m) {
                    let k = choose|k: int| 0 <= k < rest.len() && rest[k] == m;
                    assert(list[k] == m);
                }
            }
        }
    } else {
        assert(0u8 & modifier_bit(m) == 0) by (bit_vector);
    }
}

/// Law: unpacking a packed number and packing the list again keeps the bits of the
/// writable modifiers and drops the others.
pub proof fn law_pack_unpack(from: u8)
    ensures
        modifier_sum(selected_modifiers(from, 4)) == (from & 15) as int,
{
    let s1 = selected_modifiers(from, 1);
    let s2 = selected_modifiers(from, 2);
    let s3 = selected_modifiers(from, 3);
    let s4 = selected_modifiers(from, 4);
    assert(selected_modifiers(from, 0) == Seq::<Modifier>::empty());
    assert(modifier_sum(Seq::<Modifier>::empty()) == 0);
    assert(all_modifiers()[0] == Modifier::Public);
    assert(all_modifiers()[1] == Modifier::Protected);
    assert(all_modifiers()[2] == Modifier::Extern);
    assert(all_modifiers()[3] == Modifier::Internal);
    assert(modifier_sum(s1) == (if from & 1 != 0 { 1int } else { 0 })) by {
        if from & 1 != 0 {
            assert(s1.drop_last() =~= Seq::<Modifier>::empty());
        }
    }
    assert(modifier_sum(s2) == modifier_sum(s1) + (if from & 2 != 0 { 2int } else { 0 })) by {
        if from & 2 != 0 {
            assert(s2.drop_last() =~= s1);
        }
    }
    assert(modifier_sum(s3) == modifier_sum(s2) + (if from & 4 != 0 { 4int } else { 0 })) by {
        if from & 4 != 0 {
            assert(s3.drop_last() =~= s2);
        }
    }
    assert(modifier_sum(s4) == modifier_sum(s3) + (if from & 8 != 0 { 8int } else { 0 })) by {
        if from & 8 != 0 {
            assert(s4.drop_last() =~= s3);
        }
    }
    assert((if from & 1 != 0 { 1u8 } else { 0 }) + (if from & 2 != 0 { 2u8 } else { 0 }) + (if from & 4
        != 0 { 4u8 } else { 0 }) + (if from & 8 != 0 { 8u8 } else { 0 }) == from & 15) by (bit_vector);
}

} // verus!

verus! {

/// A simple attribute over structures or functions, potentially used later in the process
#[derive(Clone, Debug, PartialEq, Eq)]
pub enum Attribute {
    /// #[my_attribute]
    Basic(String),
    /// #[my_attribute(2)]
    Integer(String, i64),
    /// #[my_attribute(false)]
    Bool(String, bool),
    /// #[my_attribute(Some Text)]
    String(String, String),
}

/// The name of an attribute.
pub open spec fn attribute_name(a: Attribute) -> Seq<char> {
    match a {
        Attribute::Basic(found) => found@,
        Attribute::Integer(found, _) => found@,
        Attribute::Bool(found, _) => found@,
        Attribute::String(found, _) => found@,
    }
}

impl Attribute {
    /// Finds the first attribute with the given name
    pub fn find_attribute<'a>(name: &str, attributes: &'a Vec<Attribute>) -> (r: Option<&'a Attribute>)
        ensures
            match r {
                Some(found) => exists|i: int|
                    0 <= i < attributes@.len() && *found == attributes@[i] && attribute_name(attributes@[i])
                        == name@ && forall|j: int| 0 <= j < i ==> attribute_name(#[trigger] attributes@[j]) != name@,
                None => forall|i: int|
                    0 <= i < attributes@.len() ==> attribute_name(#[trigger] attributes@[i]) != name@,
            },
    {
        let mut i: usize = 0;
        while i < attributes.len()
            invariant
                i <= attributes@.len(),
                forall|j: int| 0 <= j < i ==> attribute_name(#[trigger] attributes@[j]) != name@,
            decreases attributes@.len() - i,
        {
            let attribute = &attributes[i];
            let matched = match attribute {
                Attribute::Basic(found) => str_eq(found.as_str(), name),
                Attribute::Integer(found, _) => str_eq(found.as_str(), name),
                Attribute::Bool(found, _) => str_eq(found.as_str(), name),
                Attribute::String(found, _) => str_eq(found.as_str(), name),
            };
            if matched {
                return Some(attribute);
            }
            i += 1;
        }
        None
    }

    /// The value of a string attribute, or `None` for an attribute of another kind
    pub fn as_string_attribute(&self) -> (r: Option<&String>)
        ensures
            match *self {
                Attribute::String(_, value) => r == Some(&value),
                _ => r is None,
            },
    {
        match self {
            Attribute::String(_, value) => Some(value),
            _ => None,
        }
    }

    /// The value of an integer attribute, or `None` for an attribute of another kind
    pub fn as_int_attribute(&self) -> (r: Option<i64>)
        ensures
            match *self {
                Attribute::Integer(_, value) => r == Some(value),
                _ => r is None,
            },
    {
        match self {
            Attribute::Integer(_, value) => Some(*value),
            _ => None,
        }
    }

    /// The value of a boolean attribute, or `None` for an attribute of another kind
    pub fn as_bool_attribute(&self) -> (r: Option<bool>)
        ensures
            match *self {
                Attribute::Bool(_, value) => r == Some(value),
                _ => r is None,
            },
    {
        match self {
            Attribute::Bool(_, value) => Some(*value),
            _ => None,
        }
    }
}

} // verus!

verus! {

proof fn lemma_selected_contains(from: u8, n: int, m: Modifier)
    requires
        0 <= n <= 4,
    ensures
        selected_modifiers(from, n).contains(m) <==> exists|k: int|
            0 <= k < n && all_modifiers()[k] == m && from & modifier_bit(m) != 0,
    decreases n,
{
    if n > 0 {
        lemma_selected_contains(from, n - 1, m);
        let last = all_modifiers()[n - 1];
        let rest = selected_modifiers(from, n - 1);
        if from & modifier_bit(last) != 0 {
            assert(selected_modifiers(from, n) == rest.push(last));
            if rest.push(last).contains(m) && !rest.contains(m) {
                let i = choose|i: int| 0 <= i < rest.push(last).len() && rest.push(last)[i] == m;
                assert(i == rest.len());
            }
            if rest.contains(m) {
                let i = choose|i: int| 0 <= i < rest.len() && rest[i] == m;
                assert(rest.push(last)[i] == m);
            }
            if last == m {
                assert(rest.push(last)[rest.len() as int] == m);
            }
        }
    }
}

/// Law: unpacking the packed form of a list of distinct modifiers gives back exactly the
/// writable modifiers of the list (the trait modifier is never unpacked).
pub proof fn law_unpack_packed(list: Seq<Modifier>, m: Modifier)
    requires
        list.no_duplicates(),
    ensures
        selected_modifiers(modifier_sum(list) as u8, 4).contains(m) <==> (list.contains(m) && m != Modifier::Trait),
{
    law_is_modifier_of_packed(list, m);
    lemma_selected_contains(modifier_sum(list) as u8, 4, m);
    let packed = modifier_sum(list) as u8;
    let b = modifier_bit(m);
    assert(b == 1 || b == 2 || b == 4 || b == 8 || b == 16);
    assert((b == 1 || b == 2 || b == 4 || b == 8 || b == 16) ==> (packed & b != 0 <==> packed & b == b)) by (bit_vector);
    if m != Modifier::Trait {
        let k = if m == Modifier::Public {
            0int
        } else if m == Modifier::Protected {
            1int
        } else if m == Modifier::Extern {
            2int
        } else {
            3int
        };
        assert(all_modifiers()[k] == m);
    } else {
        assert(forall|k: int| 0 <= k < 4 ==> all_modifiers()[k] != Modifier::Trait);
    }
}

} // verus!

verus! {

/// The position of a modifier in the order the writable modifiers are tried; the trait
/// modifier comes after all of them.
pub open spec fn modifier_rank(m: Modifier) -> int {
    match m {
        Modifier::Public => 0,
        Modifier::Protected => 1,
        Modifier::Extern => 2,
        Modifier::Internal => 3,
        Modifier::Trait => 4,
    }
}

/// Each modifier of the list comes strictly after the one before it in the order the
/// writable modifiers are tried (so none occurs twice).
pub open spec fn in_modifier_order(list: Seq<Modifier>) -> bool {
    forall|i: int, j: int|
        0 <= i < j < list.len() ==> modifier_rank(#[trigger] list[i]) < modifier_rank(#[trigger] list[j])
}

proof fn lemma_selected_order(from: u8, n: int)
    requires
        0 <= n <= 4,
    ensures
        in_modifier_order(selected_modifiers(from, n)),
        forall|i: int|
            0 <= i < selected_modifiers(from, n).len() ==> modifier_rank(#[trigger] selected_modifiers(from, n)[i]) < n,
    decreases n,
{
    if n > 0 {
        lemma_selected_order(from, n - 1);
        let last = all_modifiers()[n - 1];
        assert(modifier_rank(last) == n - 1);
    }
}

proof fn lemma_ordered_equal(s: Seq<Modifier>, t: Seq<Modifier>)
    requires
        in_modifier_order(s),
        in_modifier_order(t),
        forall|m: Modifier| s.contains(m) <==> t.contains(m),
    ensures
        s == t,
    decreases s.len(),
{
    if s.len() == 0 {
        if t.len() > 0 {
            assert(t.contains(t[0]));
        }
        assert(s =~= t);
    } else if t.len() == 0 {
        assert(s.contains(s[0]));
    } else {
        let a = s.last();
        let b = t.last();
        assert(s.contains(a));
        assert(t.contains(b));
        let k = choose|k: int| 0 <= k < t.len() && t[k] == a;
        let l = choose|l: int| 0 <= l < s.len() && s[l] == b;
        if k < t.len() - 1 {
            assert(modifier_rank(t[k]) < modifier_rank(t[t.len() - 1]));
            if l < s.len() - 1 {
                assert(modifier_rank(s[l]) < modifier_rank(s[s.len() - 1]));
            }
            assert(false);
        }
        assert(a == b);
        let s2 = s.drop_last();
        let t2 = t.drop_last();
        assert forall|m: Modifier| s2.contains(m) <==> t2.contains(m) by {
            if s2.contains(m) {
                let i = choose|i: int| 0 <= i < s2.len() && s2[i] == m;
                assert(s[i] == m);
                assert(modifier_rank(s[i]) < modifier_rank(s[s.len() - 1]));
                assert(t.contains(m));
                let j = choose|j: int| 0 <= j < t.len() && t[j] == m;
                assert(j != t.len() - 1);
                assert(t2[j] == m);
            }
            if t2.contains(m) {
                let i = choose|i: int| 0 <= i < t2.len() && t2[i] == m;
                assert(t[i] == m);
                assert(modifier_rank(t[i]) < modifier_rank(t[t.len() - 1]));
                assert(s.contains(m));
                let j = choose|j: int| 0 <= j < s.len() && s[j] == m;
                assert(j != s.len() - 1);
                assert(s2[j] == m);
            }
        }
        lemma_ordered_equal(s2, t2);
        assert(s =~= s2.push(a));
        assert(t =~= t2.push(b));
    }
}

/// Law: the list a number unpacks to holds no modifier twice, lists the modifiers in the
/// order they are tried, and packs back to the number's bits of the writable modifiers.
pub proof fn law_unpacked_in_order(from: u8)
    ensures
        selected_modifiers(from, 4).no_duplicates(),
        in_modifier_order(selected_modifiers(from, 4)),
        modifier_sum(selected_modifiers(from, 4)) == (from & 15) as int,
{
    lemma_selected_order(from, 4);
    law_pack_unpack(from);
    let s = selected_modifiers(from, 4);
    assert forall|i: int, j: int| 0 <= i < s.len() && 0 <= j < s.len() && i != j implies s[i] != s[j] by {
        if i < j {
            assert(modifier_rank(s[i]) < modifier_rank(s[j]));
        } else {
            assert(modifier_rank(s[j]) < modifier_rank(s[i]));
        }
    }
}

/// Law: a list of writable modifiers in the order they are tried is exactly what its packed
/// form unpacks to.
pub proof fn law_pack_round_trip(list: Seq<Modifier>)
    requires
        in_modifier_order(list),
        forall|i: int| 0 <= i < list.len() ==> #[trigger] list[i] != Modifier::Trait,
    ensures
        modifier_sum(list) <= 15,
        selected_modifiers(modifier_sum(list) as u8, 4) == list,
{
    assert(list.no_duplicates()) by {
        assert forall|i: int, j: int| 0 <= i < list.len() && 0 <= j < list.len() && i != j implies list[i]
            != list[j] by {
            if i < j {
                assert(modifier_rank(list[i]) < modifier_rank(list[j]));
            } else {
                assert(modifier_rank(list[j]) < modifier_rank(list[i]));
            }
        }
    }
    let packed = modifier_sum(list) as u8;
    assert forall|m: Modifier| selected_modifiers(packed, 4).contains(m) <==> list.contains(m) by {
        law_unpack_packed(list, m);
        if list.contains(m) {
            let i = choose|i: int| 0 <= i < list.len() && list[i] == m;
            assert(list[i] != Modifier::Trait);
        }
    }
    law_unpacked_in_order(packed);
    lemma_ordered_equal(selected_modifiers(packed, 4), list);
    law_is_modifier_of_packed(list, Modifier::Trait);
    law_pack_unpack(packed);
    let x = modifier_sum(list);
    assert(0 <= x < 32);
    assert(x == packed);
    assert(!list.contains(Modifier::Trait)) by {
        if list.contains(Modifier::Trait) {
            let i = choose|i: int| 0 <= i < list.len() && list[i] == Modifier::Trait;
            assert(list[i] != Modifier::Trait);
        }
    }
    assert(packed & 16 == 0);
    assert(packed < 32 ==> (packed & 16 == 0 ==> packed & 15 == packed)) by (bit_vector);
    assert(packed & 15 <= 15) by (bit_vector);
}

} // verus!
