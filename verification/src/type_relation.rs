//! Whether one finalized type is of another, by the language's type rules.
//!
//! Where the answer depends on implementations of traits that may still be parsed, the
//! relation does not wait: it names, as a `TypeWaiter`, what has to be waited for, and the
//! caller waits.
use vstd::prelude::*;

use crate::modifiers::{is_modifier, modifier_bit, Modifier};
use crate::text::same_chars;
use crate::types::{
    base_name, base_name_of, copy_type, lemma_element_size, lemma_list_models, list_size,
    type_models, type_size, FinalizedTypes, TypeModel,
};

verus! {

broadcast use lemma_element_size;

/// Whether two types are the same type: references are looked through, structures are the
/// same where their names agree up to the first `$`, generics where their names agree,
/// and generic types where their bases and all their arguments are the same.
pub open spec fn same_type(a: TypeModel, b: TypeModel) -> bool
    decreases type_size(a) + type_size(b),
{
    match a {
        TypeModel::Reference(inner, _, _) => same_type(*inner, b),
        _ => match b {
            TypeModel::Reference(inner, _, _) => same_type(a, *inner),
            TypeModel::Struct(second, _) => match a {
                TypeModel::Struct(first, _) => base_name(first) == base_name(second),
                _ => false,
            },
            TypeModel::Generic(second, _) => match a {
                TypeModel::Generic(first, _) => first == second,
                _ => false,
            },
            TypeModel::GenericType(second_base, second_list) => match a {
                TypeModel::GenericType(base, list) => {
                    &&& same_type(*base, *second_base)
                    &&& list.len() == second_list.len()
                    &&& forall|k: int| 0 <= k < list.len() ==> same_type(list[k], second_list[k])
                },
                _ => false,
            },
        },
    }
}

/// What has to be waited for before a type relation that could not be settled at once is
/// known, as values.
pub enum WaiterModel {
    /// Whether the first type implements the second, a trait
    Implements(TypeModel, TypeModel),
    /// Whether an implementation of the second type exists for the first
    HasImpl(TypeModel, TypeModel),
    /// Whether every one of these holds
    All(Seq<WaiterModel>),
}

/// The result of one type relation check: whether it holds now, and if not what may still
/// make it hold.
pub type RelationModel = (bool, Option<WaiterModel>);

/// The waiters of the checks that failed but may still hold, in order.
pub open spec fn pending(results: Seq<RelationModel>) -> Seq<WaiterModel>
    decreases results.len(),
{
    if results.len() == 0 {
        Seq::empty()
    } else {
        let earlier = pending(results.drop_last());
        let r = results.last();
        if !r.0 && r.1 is Some {
            earlier.push(r.1->0)
        } else {
            earlier
        }
    }
}

/// Every check must hold: no if one failed for good, else a wait on all that may still hold,
/// else yes.
pub open spec fn all_of(results: Seq<RelationModel>) -> RelationModel {
    if exists|k: int| 0 <= k < results.len() && !results[k].0 && results[k].1 is None {
        (false, None)
    } else if pending(results).len() > 0 {
        (false, Some(WaiterModel::All(pending(results))))
    } else {
        (true, None)
    }
}

/// One check must hold: yes if one holds, else a wait on all that may still hold, else no.
pub open spec fn any_of(results: Seq<RelationModel>) -> RelationModel {
    if exists|k: int| 0 <= k < results.len() && results[k].0 {
        (true, None)
    } else if pending(results).len() > 0 {
        (false, Some(WaiterModel::All(pending(results))))
    } else {
        (false, None)
    }
}

/// Type `a` against each type of a list.
pub open spec fn relations_from(a: TypeModel, list: Seq<TypeModel>, wait: bool) -> Seq<RelationModel>
    decreases type_size(a) + list_size(list), 1nat,
{
    Seq::new(list.len(), |k: int| if 0 <= k < list.len() { relation(a, list[k], wait) } else { (false, None) })
}

/// Each type of a list against type `b`.
pub open spec fn relations_to(list: Seq<TypeModel>, b: TypeModel, wait: bool) -> Seq<RelationModel>
    decreases list_size(list) + type_size(b), 1nat,
{
    Seq::new(list.len(), |k: int| if 0 <= k < list.len() { relation(list[k], b, wait) } else { (false, None) })
}

/// Each type of a list against the type in the same place of another list.
pub open spec fn relations_pairwise(list: Seq<TypeModel>, other: Seq<TypeModel>, wait: bool) -> Seq<RelationModel>
    decreases list_size(list) + list_size(other), 1nat,
{
    Seq::new(
        list.len(),
        |k: int|
            if 0 <= k < list.len() && k < other.len() {
                relation(list[k], other[k], wait)
            } else {
                (false, None)
            },
    )
}

/// For each bound of a generic, whether one of another generic's bounds meets it (is of it).
pub open spec fn bounds_met(bounds: Seq<TypeModel>, other_bounds: Seq<TypeModel>, wait: bool) -> Seq<RelationModel>
    decreases list_size(bounds) + list_size(other_bounds), 2nat,
{
    Seq::new(
        bounds.len(),
        |i: int|
            if 0 <= i < bounds.len() {
                any_of(relations_to(other_bounds, bounds[i], wait))
            } else {
                (false, None)
            },
    )
}

/// Whether type `a` is of type `b`, where `wait` says whether a wait on an implementation
/// may be asked for:
/// - references are looked through (`a`'s first);
/// - a structure is of the same structure; of another structure that is a trait only after
///   waiting for it to implement the trait (if waiting is allowed, else not); of a generic
///   if of each of its bounds; of a generic type if of its base;
/// - a generic type is of a generic type with the same base if each argument is of the
///   other's argument in the same place (not where the numbers of arguments differ), and
///   of one with another base only after waiting for an implementation; of a generic if of
///   each of its bounds; of a structure if its base is;
/// - a generic is of a generic if each of its bounds is met by one of the other's bounds;
///   of a structure or generic type if it has no bounds or one of its bounds is of it.
pub open spec fn relation(a: TypeModel, b: TypeModel, wait: bool) -> RelationModel
    decreases type_size(a) + type_size(b), 0nat,
{
    match a {
        TypeModel::Reference(inner, _, _) => relation(*inner, b, wait),
        TypeModel::Struct(name, _) => match b {
            TypeModel::Struct(other_name, modifiers) => if base_name(name) == base_name(other_name) {
                (true, None)
            } else if modifiers & modifier_bit(Modifier::Trait) == modifier_bit(Modifier::Trait) {
                if wait {
                    (false, Some(WaiterModel::Implements(a, b)))
                } else {
                    (false, None)
                }
            } else {
                (false, None)
            },
            TypeModel::Generic(_, bounds) => all_of(relations_from(a, bounds, wait)),
            TypeModel::GenericType(base, _) => relation(a, *base, wait),
            TypeModel::Reference(inner, _, _) => relation(a, *inner, wait),
        },
        TypeModel::GenericType(base, list) => match b {
            TypeModel::GenericType(other_base, other_list) => if !same_type(*base, *other_base) {
                (false, Some(WaiterModel::HasImpl(a, b)))
            } else if list.len() != other_list.len() {
                (false, None)
            } else {
                all_of(relations_pairwise(list, other_list, wait))
            },
            TypeModel::Generic(_, bounds) => all_of(relations_from(a, bounds, wait)),
            TypeModel::Struct(_, _) => relation(*base, b, wait),
            TypeModel::Reference(inner, _, _) => relation(a, *inner, wait),
        },
        TypeModel::Generic(_, bounds) => match b {
            TypeModel::Generic(_, other_bounds) => all_of(bounds_met(bounds, other_bounds, wait)),
            TypeModel::Reference(inner, _, _) => relation(a, *inner, wait),
            _ => if bounds.len() == 0 {
                (true, None)
            } else {
                any_of(relations_to(bounds, b, wait))
            },
        },
    }
}

/// What has to be waited for before a type relation that could not be settled at once is
/// known.
pub enum TypeWaiter {
    /// Wait for the first type to implement the second, a trait
    Implements(FinalizedTypes, FinalizedTypes),
    /// Wait for an implementation of the second type for the first
    HasImpl(FinalizedTypes, FinalizedTypes),
    /// Wait for all of these; the relation holds if each does
    All(Vec<TypeWaiter>),
}

/// A waiter as values.
pub open spec fn waiter_model(w: TypeWaiter) -> WaiterModel
    decreases w,
{
    match w {
        TypeWaiter::Implements(a, b) => WaiterModel::Implements(a@, b@),
        TypeWaiter::HasImpl(a, b) => WaiterModel::HasImpl(a@, b@),
        TypeWaiter::All(list) => WaiterModel::All(
            Seq::new(
                list@.len(),
                |k: int|
                    if 0 <= k < list@.len() {
                        waiter_model(list@[k])
                    } else {
                        WaiterModel::All(Seq::empty())
                    },
            ),
        ),
    }
}

/// A list of waiters as values.
pub open spec fn waiter_models(list: Seq<TypeWaiter>) -> Seq<WaiterModel> {
    Seq::new(list.len(), |k: int| waiter_model(list[k]))
}

/// The result of a relation check as values.
pub open spec fn relation_model(r: (bool, Option<TypeWaiter>)) -> RelationModel {
    (
        r.0,
        match r.1 {
            Some(w) => Some(waiter_model(w)),
            None => None,
        },
    )
}

proof fn lemma_all_model(list: Vec<TypeWaiter>)
    ensures
        waiter_model(TypeWaiter::All(list)) == WaiterModel::All(waiter_models(list@)),
{
    match waiter_model(TypeWaiter::All(list)) {
        WaiterModel::All(models) => {
            assert(models =~= waiter_models(list@));
        },
        _ => {},
    }
}

proof fn lemma_pending_step(results: Seq<RelationModel>, i: int)
    requires
        0 <= i < results.len(),
    ensures
        pending(results.take(i + 1)) == if !results[i].0 && results[i].1 is Some {
            pending(results.take(i)).push(results[i].1->0)
        } else {
            pending(results.take(i))
        },
{
    assert(results.take(i + 1).drop_last() =~= results.take(i));
}

/// Whether two types are the same type (see `same_type`).
pub fn recursive_eq(first: &FinalizedTypes, second: &FinalizedTypes) -> (r: bool)
    ensures
        r == same_type(first@, second@),
    decreases type_size(first@) + type_size(second@),
{
    proof {
        lemma_list_models(*first);
        lemma_list_models(*second);
    }
    if let FinalizedTypes::Reference(inner, _) = first {
        return recursive_eq(inner, second);
    }
    if let FinalizedTypes::Reference(inner, _) = second {
        return recursive_eq(first, inner);
    }
    match first {
        FinalizedTypes::Struct(found) => match second {
            FinalizedTypes::Struct(other) => {
                let name = base_name_of(found.name.as_str());
                let other_name = base_name_of(other.name.as_str());
                same_chars(&name, &other_name)
            },
            _ => false,
        },
        FinalizedTypes::Generic(name, _) => match second {
            FinalizedTypes::Generic(other_name, _) => *name == *other_name,
            _ => false,
        },
        FinalizedTypes::GenericType(base, bounds) => match second {
            FinalizedTypes::GenericType(second_base, second_bounds) => {
                if !recursive_eq(base, second_base) || bounds.len() != second_bounds.len() {
                    return false;
                }
                let ghost models = type_models(bounds@);
                let ghost second_models = type_models(second_bounds@);
                let mut i: usize = 0;
                while i < bounds.len()
                    invariant
                        i <= bounds@.len(),
                        bounds@.len() == second_bounds@.len(),
                        models == type_models(bounds@),
                        second_models == type_models(second_bounds@),
                        first@ == TypeModel::GenericType(Box::new(base@), models),
                        second@ == TypeModel::GenericType(Box::new(second_base@), second_models),
                        same_type(base@, second_base@),
                        type_size(first@) == 1 + type_size(base@) + list_size(models),
                        type_size(second@) == 1 + type_size(second_base@) + list_size(second_models),
                        forall|k: int| 0 <= k < i ==> same_type(#[trigger] models[k], second_models[k]),
                    decreases bounds@.len() - i,
                {
                    proof {
                        assert(type_size(models[i as int]) <= list_size(models));
                        assert(type_size(second_models[i as int]) <= list_size(second_models));
                    }
                    if !recursive_eq(&bounds[i], &second_bounds[i]) {
                        return false;
                    }
                    i += 1;
                }
                true
            },
            _ => false,
        },
        FinalizedTypes::Reference(_, _) => false,
    }
}

/// Whether type `a` is of each type of a list (see `all_of`).
fn of_each(a: &FinalizedTypes, bounds: &Vec<FinalizedTypes>, wait: bool) -> (r: (bool, Option<TypeWaiter>))
    ensures
        relation_model(r) == all_of(relations_from(a@, type_models(bounds@), wait)),
    decreases type_size(a@) + list_size(type_models(bounds@)), 1nat,
{
    let ghost results = relations_from(a@, type_models(bounds@), wait);
    let mut fails: Vec<TypeWaiter> = Vec::new();
    let mut i: usize = 0;
    while i < bounds.len()
        invariant
            i <= bounds@.len(),
            results == relations_from(a@, type_models(bounds@), wait),
            waiter_models(fails@) == pending(results.take(i as int)),
            forall|k: int| 0 <= k < i ==> (#[trigger] results[k]).0 || results[k].1 is Some,
        decreases bounds@.len() - i,
    {
        proof {
            assert(type_size(type_models(bounds@)[i as int]) <= list_size(type_models(bounds@)));
            lemma_pending_step(results, i as int);
        }
        let (ok, waiter) = a.of_type_sync(&bounds[i], wait);
        if !ok {
            match waiter {
                Some(found) => {
                    let ghost before = fails@;
                    fails.push(found);
                    proof {
                        assert(waiter_models(fails@) =~= waiter_models(before).push(waiter_model(found)));
                    }
                },
                None => {
                    return (false, None);
                },
            }
        }
        i += 1;
    }
    proof {
        assert(results.take(i as int) =~= results);
    }
    if fails.len() > 0 {
        proof {
            lemma_all_model(fails);
        }
        (false, Some(TypeWaiter::All(fails)))
    } else {
        (true, None)
    }
}

/// Whether each type of a list is of the type in the same place of another list of the same
/// length (see `all_of`).
fn of_each_pair(list: &Vec<FinalizedTypes>, other: &Vec<FinalizedTypes>, wait: bool) -> (r: (bool, Option<TypeWaiter>))
    requires
        list@.len() == other@.len(),
    ensures
        relation_model(r) == all_of(relations_pairwise(type_models(list@), type_models(other@), wait)),
    decreases list_size(type_models(list@)) + list_size(type_models(other@)), 1nat,
{
    let ghost results = relations_pairwise(type_models(list@), type_models(other@), wait);
    let mut fails: Vec<TypeWaiter> = Vec::new();
    let mut i: usize = 0;
    while i < list.len()
        invariant
            i <= list@.len(),
            results == relations_pairwise(type_models(list@), type_models(other@), wait),
            list@.len() == other@.len(),
            waiter_models(fails@) == pending(results.take(i as int)),
            forall|k: int| 0 <= k < i ==> (#[trigger] results[k]).0 || results[k].1 is Some,
        decreases list@.len() - i,
    {
        proof {
            assert(type_size(type_models(list@)[i as int]) <= list_size(type_models(list@)));
            assert(type_size(type_models(other@)[i as int]) <= list_size(type_models(other@)));
            lemma_pending_step(results, i as int);
        }
        let (ok, waiter) = list[i].of_type_sync(&other[i], wait);
        if !ok {
            match waiter {
                Some(found) => {
                    let ghost before = fails@;
                    fails.push(found);
                    proof {
                        assert(waiter_models(fails@) =~= waiter_models(before).push(waiter_model(found)));
                    }
                },
                None => {
                    return (false, None);
                },
            }
        }
        i += 1;
    }
    proof {
        assert(results.take(i as int) =~= results);
    }
    if fails.len() > 0 {
        proof {
            lemma_all_model(fails);
        }
        (false, Some(TypeWaiter::All(fails)))
    } else {
        (true, None)
    }
}

/// Whether one type of a list is of type `b` (see `any_of`).
fn any_of_list(list: &Vec<FinalizedTypes>, b: &FinalizedTypes, wait: bool) -> (r: (bool, Option<TypeWaiter>))
    ensures
        relation_model(r) == any_of(relations_to(type_models(list@), b@, wait)),
    decreases list_size(type_models(list@)) + type_size(b@), 1nat,
{
    let ghost results = relations_to(type_models(list@), b@, wait);
    let mut fails: Vec<TypeWaiter> = Vec::new();
    let mut i: usize = 0;
    while i < list.len()
        invariant
            i <= list@.len(),
            results == relations_to(type_models(list@), b@, wait),
            waiter_models(fails@) == pending(results.take(i as int)),
            forall|k: int| 0 <= k < i ==> !(#[trigger] results[k]).0,
        decreases list@.len() - i,
    {
        proof {
            assert(type_size(type_models(list@)[i as int]) <= list_size(type_models(list@)));
            lemma_pending_step(results, i as int);
        }
        let (ok, waiter) = list[i].of_type_sync(b, wait);
        if ok {
            return (true, None);
        }
        if let Some(found) = waiter {
            let ghost before = fails@;
            fails.push(found);
            proof {
                assert(waiter_models(fails@) =~= waiter_models(before).push(waiter_model(found)));
            }
        }
        i += 1;
    }
    proof {
        assert(results.take(i as int) =~= results);
    }
    if fails.len() > 0 {
        proof {
            lemma_all_model(fails);
        }
        (false, Some(TypeWaiter::All(fails)))
    } else {
        (false, None)
    }
}

/// Whether each bound of a generic is met by one of another generic's bounds (see `all_of`
/// and `bounds_met`).
fn each_bound_met(bounds: &Vec<FinalizedTypes>, other_bounds: &Vec<FinalizedTypes>, wait: bool) -> (r: (bool, Option<TypeWaiter>))
    ensures
        relation_model(r) == all_of(bounds_met(type_models(bounds@), type_models(other_bounds@), wait)),
    decreases list_size(type_models(bounds@)) + list_size(type_models(other_bounds@)), 2nat,
{
    let ghost results = bounds_met(type_models(bounds@), type_models(other_bounds@), wait);
    let mut fails: Vec<TypeWaiter> = Vec::new();
    let mut i: usize = 0;
    while i < bounds.len()
        invariant
            i <= bounds@.len(),
            results == bounds_met(type_models(bounds@), type_models(other_bounds@), wait),
            waiter_models(fails@) == pending(results.take(i as int)),
            forall|k: int| 0 <= k < i ==> (#[trigger] results[k]).0 || results[k].1 is Some,
        decreases bounds@.len() - i,
    {
        proof {
            assert(type_size(type_models(bounds@)[i as int]) <= list_size(type_models(bounds@)));
            lemma_pending_step(results, i as int);
        }
        let (ok, waiter) = any_of_list(other_bounds, &bounds[i], wait);
        if !ok {
            match waiter {
                Some(found) => {
                    let ghost before = fails@;
                    fails.push(found);
                    proof {
                        assert(waiter_models(fails@) =~= waiter_models(before).push(waiter_model(found)));
                    }
                },
                None => {
                    return (false, None);
                },
            }
        }
        i += 1;
    }
    proof {
        assert(results.take(i as int) =~= results);
    }
    if fails.len() > 0 {
        proof {
            lemma_all_model(fails);
        }
        (false, Some(TypeWaiter::All(fails)))
    } else {
        (true, None)
    }
}

impl FinalizedTypes {
    /// Checks whether this type is of the other type, following the language's type rules,
    /// without waiting (see `relation`). Where the answer may still change once trait
    /// implementations are known, it returns `false` with what to wait for; `wait` says
    /// whether a wait for a type to implement a trait may be asked for.
    pub fn of_type_sync(&self, other: &FinalizedTypes, wait: bool) -> (r: (bool, Option<TypeWaiter>))
        ensures
            relation_model(r) == relation(self@, other@, wait),
        decreases type_size(self@) + type_size(other@), 0nat,
    {
        proof {
            lemma_list_models(*self);
            lemma_list_models(*other);
        }
        match self {
            FinalizedTypes::Struct(found) => match other {
                FinalizedTypes::Struct(other_struct) => {
                    let name = base_name_of(found.name.as_str());
                    let other_name = base_name_of(other_struct.name.as_str());
                    if same_chars(&name, &other_name) {
                        (true, None)
                    } else if is_modifier(other_struct.modifiers, Modifier::Trait) {
                        if !wait {
                            return (false, None);
                        }
                        (false, Some(TypeWaiter::Implements(copy_type(self), copy_type(other))))
                    } else {
                        (false, None)
                    }
                },
                FinalizedTypes::Generic(_, bounds) => of_each(self, bounds, wait),
                FinalizedTypes::GenericType(base, _) => self.of_type_sync(base, wait),
                FinalizedTypes::Reference(inner, _) => self.of_type_sync(inner, wait),
            },
            FinalizedTypes::GenericType(base, generics) => match other {
                FinalizedTypes::GenericType(other_base, other_generics) => {
                    if !recursive_eq(base, other_base) {
                        return (false, Some(TypeWaiter::HasImpl(copy_type(self), copy_type(other))));
                    }
                    if generics.len() != other_generics.len() {
                        return (false, None);
                    }
                    of_each_pair(generics, other_generics, wait)
                },
                FinalizedTypes::Generic(_, bounds) => of_each(self, bounds, wait),
                FinalizedTypes::Struct(_) => base.of_type_sync(other, wait),
                FinalizedTypes::Reference(inner, _) => self.of_type_sync(inner, wait),
            },
            FinalizedTypes::Reference(referencing, _) => referencing.of_type_sync(other, wait),
            FinalizedTypes::Generic(_, bounds) => match other {
                FinalizedTypes::Generic(_, other_bounds) => each_bound_met(bounds, other_bounds, wait),
                FinalizedTypes::Reference(inner, _) => self.of_type_sync(inner, wait),
                _ => {
                    if bounds.len() == 0 {
                        return (true, None);
                    }
                    any_of_list(bounds, other, wait)
                },
            },
        }
    }
}

/// A type with its references looked through.
pub open spec fn unreferenced(t: TypeModel) -> TypeModel
    decreases t,
{
    match t {
        TypeModel::Reference(inner, _, _) => unreferenced(*inner),
        _ => t,
    }
}

proof fn lemma_unreferenced_size(t: TypeModel)
    ensures
        type_size(unreferenced(t)) <= type_size(t),
        t is Reference ==> type_size(unreferenced(t)) < type_size(t),
        unreferenced(t) !is Reference,
        t !is Reference ==> unreferenced(t) == t,
    decreases t,
{
    if let TypeModel::Reference(inner, _, _) = t {
        lemma_unreferenced_size(*inner);
    }
}

/// Law: references are looked through when two types are compared.
pub proof fn law_same_type_unreferenced(a: TypeModel, b: TypeModel)
    ensures
        same_type(a, b) == same_type(unreferenced(a), unreferenced(b)),
    decreases type_size(a) + type_size(b),
{
    lemma_unreferenced_size(a);
    lemma_unreferenced_size(b);
    match a {
        TypeModel::Reference(inner, _, _) => law_same_type_unreferenced(*inner, b),
        _ => if let TypeModel::Reference(inner, _, _) = b {
            law_same_type_unreferenced(a, *inner);
        },
    }
}

/// Law: references are ignored for type checking: a type relates to another as the types
/// they refer to do.
pub proof fn law_relation_unreferenced(a: TypeModel, b: TypeModel, wait: bool)
    ensures
        relation(a, b, wait) == relation(unreferenced(a), unreferenced(b), wait),
    decreases type_size(a) + type_size(b),
{
    lemma_unreferenced_size(a);
    lemma_unreferenced_size(b);
    match a {
        TypeModel::Reference(inner, _, _) => law_relation_unreferenced(*inner, b, wait),
        _ => if let TypeModel::Reference(inner, _, _) = b {
            law_relation_unreferenced(a, *inner, wait);
        },
    }
}

proof fn lemma_all_hold(results: Seq<RelationModel>)
    requires
        forall|k: int| 0 <= k < results.len() ==> #[trigger] results[k] == (true, None::<WaiterModel>),
    ensures
        pending(results).len() == 0,
        all_of(results) == (true, None::<WaiterModel>),
    decreases results.len(),
{
    if results.len() > 0 {
        lemma_all_hold(results.drop_last());
        assert(results.last() == results[results.len() - 1]);
    }
}

/// Law: every type is the same type as itself, and is of itself at once, with nothing to
/// wait for.
pub proof fn law_type_of_itself(t: TypeModel, wait: bool)
    ensures
        same_type(t, t),
        relation(t, t, wait) == (true, None::<WaiterModel>),
    decreases type_size(t),
{
    law_same_type_unreferenced(t, t);
    law_relation_unreferenced(t, t, wait);
    lemma_unreferenced_size(t);
    let u = unreferenced(t);
    if u != t {
        law_type_of_itself(u, wait);
    } else {
        match t {
            TypeModel::GenericType(base, list) => {
                law_type_of_itself(*base, wait);
                assert forall|k: int| 0 <= k < list.len() implies same_type(list[k], list[k])
                    && relation(list[k], list[k], wait) == (true, None::<WaiterModel>) by {
                    law_type_of_itself(list[k], wait);
                }
                let results = relations_pairwise(list, list, wait);
                assert forall|k: int| 0 <= k < results.len() implies #[trigger] results[k] == (true, None::<WaiterModel>) by {
                    assert(relation(list[k], list[k], wait) == (true, None::<WaiterModel>));
                }
                lemma_all_hold(results);
            },
            TypeModel::Generic(_, bounds) => {
                let results = bounds_met(bounds, bounds, wait);
                assert forall|i: int| 0 <= i < results.len() implies #[trigger] results[i] == (true, None::<WaiterModel>) by {
                    law_type_of_itself(bounds[i], wait);
                    let inner = relations_to(bounds, bounds[i], wait);
                    assert(inner[i].0);
                }
                lemma_all_hold(results);
            },
            _ => {},
        }
    }
}

/// Law: the equality of types is symmetric.
pub proof fn law_same_type_symmetric(a: TypeModel, b: TypeModel)
    ensures
        same_type(a, b) == same_type(b, a),
    decreases type_size(a) + type_size(b),
{
    law_same_type_unreferenced(a, b);
    law_same_type_unreferenced(b, a);
    lemma_unreferenced_size(a);
    lemma_unreferenced_size(b);
    let x = unreferenced(a);
    let y = unreferenced(b);
    if x != a || y != b {
        law_same_type_symmetric(x, y);
    } else {
        match (a, b) {
            (TypeModel::GenericType(base, list), TypeModel::GenericType(other_base, other_list)) => {
                law_same_type_symmetric(*base, *other_base);
                if list.len() == other_list.len() {
                    assert forall|k: int| 0 <= k < list.len() implies same_type(list[k], other_list[k]) == same_type(
                        other_list[k],
                        list[k],
                    ) by {
                        law_same_type_symmetric(list[k], other_list[k]);
                    }
                }
            },
            _ => {},
        }
    }
}

/// Law: the equality of types is transitive.
pub proof fn law_same_type_transitive(a: TypeModel, b: TypeModel, c: TypeModel)
    requires
        same_type(a, b),
        same_type(b, c),
    ensures
        same_type(a, c),
    decreases type_size(a) + type_size(b) + type_size(c),
{
    law_same_type_unreferenced(a, b);
    law_same_type_unreferenced(b, c);
    law_same_type_unreferenced(a, c);
    lemma_unreferenced_size(a);
    lemma_unreferenced_size(b);
    lemma_unreferenced_size(c);
    let x = unreferenced(a);
    let y = unreferenced(b);
    let z = unreferenced(c);
    if x != a || y != b || z != c {
        law_same_type_transitive(x, y, z);
    } else {
        match (a, b, c) {
            (
                TypeModel::GenericType(base, list),
                TypeModel::GenericType(middle_base, middle_list),
                TypeModel::GenericType(last_base, last_list),
            ) => {
                law_same_type_transitive(*base, *middle_base, *last_base);
                assert forall|k: int| 0 <= k < list.len() implies same_type(list[k], last_list[k]) by {
                    assert(same_type(list[k], middle_list[k]));
                    assert(same_type(middle_list[k], last_list[k]));
                    law_same_type_transitive(list[k], middle_list[k], last_list[k]);
                }
            },
            _ => {},
        }
    }
}

} // verus!

verus! {

proof fn lemma_pending_empty(results: Seq<RelationModel>)
    ensures
        pending(results).len() == 0 <==> forall|k: int| 0 <= k < results.len() ==> !(!(#[trigger] results[k]).0 && results[k].1 is Some),
    decreases results.len(),
{
    if results.len() > 0 {
        lemma_pending_empty(results.drop_last());
        let last = results.len() - 1;
        assert(results.last() == results[last]);
        assert forall|k: int| 0 <= k < results.len() - 1 implies #[trigger] results.drop_last()[k] == results[k] by {}
        if pending(results).len() == 0 {
            assert forall|k: int| 0 <= k < results.len() implies !(!(#[trigger] results[k]).0 && results[k].1 is Some) by {
                if k < last {
                    assert(results.drop_last()[k] == results[k]);
                }
            }
        }
        if forall|k: int| 0 <= k < results.len() ==> !(!(#[trigger] results[k]).0 && results[k].1 is Some) {
            assert forall|k: int| 0 <= k < results.drop_last().len() implies !(!(#[trigger] results.drop_last()[k]).0
                && results.drop_last()[k].1 is Some) by {
                assert(results.drop_last()[k] == results[k]);
            }
        }
    }
}

/// Law: a generic is of a structure or generic type exactly when it has no bounds or one of
/// its bounds is of it; where one is, nothing is waited for.
pub proof fn law_generic_any_bound(name: Seq<char>, bounds: Seq<TypeModel>, b: TypeModel, wait: bool)
    requires
        b is Struct || b is GenericType,
    ensures
        relation(TypeModel::Generic(name, bounds), b, wait).0 <==> (bounds.len() == 0 || exists|k: int|
            0 <= k < bounds.len() && (#[trigger] relation(bounds[k], b, wait)).0),
        (exists|k: int| 0 <= k < bounds.len() && (#[trigger] relation(bounds[k], b, wait)).0) ==> relation(
            TypeModel::Generic(name, bounds),
            b,
            wait,
        ) == (true, None::<WaiterModel>),
{
    let results = relations_to(bounds, b, wait);
    assert forall|k: int| 0 <= k < bounds.len() implies #[trigger] results[k] == relation(bounds[k], b, wait) by {}
    if exists|k: int| 0 <= k < bounds.len() && (#[trigger] relation(bounds[k], b, wait)).0 {
        let k = choose|k: int| 0 <= k < bounds.len() && (#[trigger] relation(bounds[k], b, wait)).0;
        assert(results[k].0);
    }
    if bounds.len() > 0 && relation(TypeModel::Generic(name, bounds), b, wait).0 {
        assert(exists|k: int| 0 <= k < results.len() && results[k].0);
        let k = choose|k: int| 0 <= k < results.len() && results[k].0;
        assert(relation(bounds[k], b, wait).0);
    }
}

/// Law: a structure or generic type is of a generic exactly when it is of each of the
/// generic's bounds; then nothing is waited for.
pub proof fn law_generic_every_bound(a: TypeModel, name: Seq<char>, bounds: Seq<TypeModel>, wait: bool)
    requires
        a is Struct || a is GenericType,
    ensures
        relation(a, TypeModel::Generic(name, bounds), wait).0 <==> (forall|k: int|
            0 <= k < bounds.len() ==> (#[trigger] relation(a, bounds[k], wait)).0),
        relation(a, TypeModel::Generic(name, bounds), wait).0 ==> relation(a, TypeModel::Generic(name, bounds), wait).1
            is None,
{
    let results = relations_from(a, bounds, wait);
    assert forall|k: int| 0 <= k < bounds.len() implies #[trigger] results[k] == relation(a, bounds[k], wait) by {}
    lemma_pending_empty(results);
    assert(relation(a, TypeModel::Generic(name, bounds), wait) == all_of(results));
    if forall|k: int| 0 <= k < bounds.len() ==> (#[trigger] relation(a, bounds[k], wait)).0 {
        assert forall|k: int| 0 <= k < results.len() implies !(!(#[trigger] results[k]).0 && results[k].1 is Some) by {
            assert(relation(a, bounds[k], wait).0);
        }
        assert(!exists|k: int| 0 <= k < results.len() && !results[k].0 && results[k].1 is None) by {
            if exists|k: int| 0 <= k < results.len() && !results[k].0 && results[k].1 is None {
                let k = choose|k: int| 0 <= k < results.len() && !results[k].0 && results[k].1 is None;
                assert(relation(a, bounds[k], wait).0);
            }
        }
    }
    if all_of(results).0 {
        assert forall|k: int| 0 <= k < bounds.len() implies (#[trigger] relation(a, bounds[k], wait)).0 by {
            assert(!(!results[k].0 && results[k].1 is None));
            assert(!(!results[k].0 && results[k].1 is Some));
        }
    }
}

/// Law: a structure is of another structure at once exactly when their base names agree.
/// Otherwise, where the other is a trait and waiting is allowed, what is waited for is
/// whether the first implements the other; in every other case nothing is.
pub proof fn law_structure_of_structure(name: Seq<char>, mods: u8, other: Seq<char>, other_mods: u8, wait: bool)
    ensures
        ({
            let a = TypeModel::Struct(name, mods);
            let b = TypeModel::Struct(other, other_mods);
            let trait_bit = other_mods & modifier_bit(Modifier::Trait) == modifier_bit(Modifier::Trait);
            &&& relation(a, b, wait).0 <==> base_name(name) == base_name(other)
            &&& relation(a, b, wait).1 == if base_name(name) != base_name(other) && trait_bit && wait {
                Some(WaiterModel::Implements(a, b))
            } else {
                None
            }
        }),
{
}

/// Law: a generic type is of a generic type with the same base and as many arguments
/// exactly when each argument is of the other's argument in the same place; then nothing
/// is waited for. With as many arguments but an argument that is not of the other's and
/// cannot become so, it is not, and nothing is waited for. With another number of
/// arguments it is not, and nothing is waited for; with another base, what is waited for
/// is an implementation of the other for it.
pub proof fn law_generic_type_arguments(
    base: TypeModel,
    list: Seq<TypeModel>,
    other_base: TypeModel,
    other_list: Seq<TypeModel>,
    wait: bool,
)
    ensures
        ({
            let a = TypeModel::GenericType(Box::new(base), list);
            let b = TypeModel::GenericType(Box::new(other_base), other_list);
            &&& !same_type(base, other_base) ==> relation(a, b, wait) == (false, Some(WaiterModel::HasImpl(a, b)))
            &&& same_type(base, other_base) && list.len() != other_list.len() ==> relation(a, b, wait) == (
                false,
                None::<WaiterModel>,
            )
            &&& same_type(base, other_base) && list.len() == other_list.len() ==> ((relation(a, b, wait).0
                <==> forall|k: int| 0 <= k < list.len() ==> (#[trigger] relation(list[k], other_list[k], wait)).0)
                && (relation(a, b, wait).0 ==> relation(a, b, wait).1 is None))
            &&& same_type(base, other_base) && list.len() == other_list.len() && (exists|k: int|
                0 <= k < list.len() && !(#[trigger] relation(list[k], other_list[k], wait)).0 && relation(
                    list[k],
                    other_list[k],
                    wait,
                ).1 is None) ==> relation(a, b, wait) == (false, None::<WaiterModel>)
        }),
{
    let a = TypeModel::GenericType(Box::new(base), list);
    let b = TypeModel::GenericType(Box::new(other_base), other_list);
    if same_type(base, other_base) && list.len() == other_list.len() {
        let results = relations_pairwise(list, other_list, wait);
        assert forall|k: int| 0 <= k < list.len() implies #[trigger] results[k] == relation(
            list[k],
            other_list[k],
            wait,
        ) by {}
        lemma_pending_empty(results);
        assert(relation(a, b, wait) == all_of(results));
        if forall|k: int| 0 <= k < list.len() ==> (#[trigger] relation(list[k], other_list[k], wait)).0 {
            assert forall|k: int| 0 <= k < results.len() implies !(!(#[trigger] results[k]).0 && results[k].1 is Some) by {
                assert(relation(list[k], other_list[k], wait).0);
            }
            assert(!exists|k: int| 0 <= k < results.len() && !results[k].0 && results[k].1 is None) by {
                if exists|k: int| 0 <= k < results.len() && !results[k].0 && results[k].1 is None {
                    let k = choose|k: int| 0 <= k < results.len() && !results[k].0 && results[k].1 is None;
                    assert(relation(list[k], other_list[k], wait).0);
                }
            }
        }
        if all_of(results).0 {
            assert forall|k: int| 0 <= k < list.len() implies (#[trigger] relation(list[k], other_list[k], wait)).0 by {
                assert(!(!results[k].0 && results[k].1 is None));
                assert(!(!results[k].0 && results[k].1 is Some));
            }
        }
        if exists|k: int|
            0 <= k < list.len() && !(#[trigger] relation(list[k], other_list[k], wait)).0 && relation(
                list[k],
                other_list[k],
                wait,
            ).1 is None {
            let k = choose|k: int|
                0 <= k < list.len() && !(#[trigger] relation(list[k], other_list[k], wait)).0 && relation(
                    list[k],
                    other_list[k],
                    wait,
                ).1 is None;
            assert(!results[k].0 && results[k].1 is None);
        }
    }
}

/// Whether one of `others` is of `bound`.
pub open spec fn met_by(others: Seq<TypeModel>, bound: TypeModel, wait: bool) -> bool {
    exists|k: int| 0 <= k < others.len() && (#[trigger] relation(others[k], bound, wait)).0
}

/// Law: a generic is of another generic exactly when each of its bounds is met by one of
/// the other's bounds (that bound is of it); then nothing is waited for.
pub proof fn law_generic_of_generic(
    name: Seq<char>,
    bounds: Seq<TypeModel>,
    other_name: Seq<char>,
    other_bounds: Seq<TypeModel>,
    wait: bool,
)
    ensures
        ({
            let a = TypeModel::Generic(name, bounds);
            let b = TypeModel::Generic(other_name, other_bounds);
            &&& relation(a, b, wait).0 <==> forall|i: int|
                0 <= i < bounds.len() ==> #[trigger] met_by(other_bounds, bounds[i], wait)
            &&& relation(a, b, wait).0 ==> relation(a, b, wait).1 is None
        }),
{
    let a = TypeModel::Generic(name, bounds);
    let b = TypeModel::Generic(other_name, other_bounds);
    let met = bounds_met(bounds, other_bounds, wait);
    assert(relation(a, b, wait) == all_of(met));
    assert forall|i: int| 0 <= i < bounds.len() implies (#[trigger] met[i]).0 == met_by(
        other_bounds,
        bounds[i],
        wait,
    ) by {
        let results = relations_to(other_bounds, bounds[i], wait);
        assert(met[i] == any_of(results));
        assert forall|k: int| 0 <= k < other_bounds.len() implies #[trigger] results[k] == relation(
            other_bounds[k],
            bounds[i],
            wait,
        ) by {}
        if met_by(other_bounds, bounds[i], wait) {
            let k = choose|k: int|
                0 <= k < other_bounds.len() && (#[trigger] relation(other_bounds[k], bounds[i], wait)).0;
            assert(results[k].0);
        }
        if met[i].0 {
            assert(exists|k: int| 0 <= k < results.len() && results[k].0);
            let k = choose|k: int| 0 <= k < results.len() && results[k].0;
            assert(relation(other_bounds[k], bounds[i], wait).0);
        }
    }
    lemma_pending_empty(met);
    if all_of(met).0 {
        assert forall|i: int| 0 <= i < bounds.len() implies #[trigger] met_by(other_bounds, bounds[i], wait) by {
            assert(!(!met[i].0 && met[i].1 is None));
            assert(!(!met[i].0 && met[i].1 is Some));
        }
    }
    if forall|i: int| 0 <= i < bounds.len() ==> #[trigger] met_by(other_bounds, bounds[i], wait) {
        assert forall|i: int| 0 <= i < met.len() implies !(!(#[trigger] met[i]).0 && met[i].1 is Some) by {
            assert(met_by(other_bounds, bounds[i], wait));
        }
        assert(!exists|i: int| 0 <= i < met.len() && !met[i].0 && met[i].1 is None) by {
            if exists|i: int| 0 <= i < met.len() && !met[i].0 && met[i].1 is None {
                let i = choose|i: int| 0 <= i < met.len() && !met[i].0 && met[i].1 is None;
                assert(met_by(other_bounds, bounds[i], wait));
            }
        }
    }
}

} // verus!
