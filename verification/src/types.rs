//! Finalized types: their values, their copies, and when two of them are the same type.
use vstd::prelude::*;

use crate::program::Loan;
use crate::text::chars_of;

verus! {

/// A structure as the type rules read it: its name and its packed modifiers.
pub struct FinalizedStruct {
    /// The name; a `$` and what follows it mark a variant of the same structure
    pub name: String,
    /// The structure's modifiers, packed
    pub modifiers: u8,
}

/// A type with a reference to the finalized program instead of the data.
pub enum FinalizedTypes {
    /// A basic struct
    Struct(FinalizedStruct),
    /// A type with generic types
    GenericType(Box<FinalizedTypes>, Vec<FinalizedTypes>),
    /// A reference to a type with the specified loan
    Reference(Box<FinalizedTypes>, Loan),
    /// A generic with bounds
    Generic(String, Vec<FinalizedTypes>),
}

/// A finalized type as values.
pub enum TypeModel {
    /// A structure's name and modifiers
    Struct(Seq<char>, u8),
    /// A base type and its generic arguments
    GenericType(Box<TypeModel>, Seq<TypeModel>),
    /// A referenced type, whether the loan is mutable, and the loan's target
    Reference(Box<TypeModel>, bool, Seq<String>),
    /// A generic's name and bounds
    Generic(Seq<char>, Seq<TypeModel>),
}

/// A finalized type as values.
pub open spec fn type_model(t: FinalizedTypes) -> TypeModel
    decreases t,
{
    match t {
        FinalizedTypes::Struct(s) => TypeModel::Struct(s.name@, s.modifiers),
        FinalizedTypes::GenericType(base, list) => TypeModel::GenericType(
            Box::new(type_model(*base)),
            Seq::new(
                list@.len(),
                |k: int|
                    if 0 <= k < list@.len() {
                        type_model(list@[k])
                    } else {
                        TypeModel::Struct(Seq::empty(), 0)
                    },
            ),
        ),
        FinalizedTypes::Reference(inner, loan) => TypeModel::Reference(
            Box::new(type_model(*inner)),
            loan.mutable,
            loan.target@,
        ),
        FinalizedTypes::Generic(name, list) => TypeModel::Generic(
            name@,
            Seq::new(
                list@.len(),
                |k: int|
                    if 0 <= k < list@.len() {
                        type_model(list@[k])
                    } else {
                        TypeModel::Struct(Seq::empty(), 0)
                    },
            ),
        ),
    }
}

/// A list of finalized types as values.
pub open spec fn type_models(list: Seq<FinalizedTypes>) -> Seq<TypeModel> {
    Seq::new(list.len(), |k: int| type_model(list[k]))
}

impl View for FinalizedTypes {
    type V = TypeModel;

    open spec fn view(&self) -> TypeModel {
        type_model(*self)
    }
}

/// The number of type nodes in a type.
pub open spec fn type_size(t: TypeModel) -> nat
    decreases t, 1nat,
{
    match t {
        TypeModel::Struct(_, _) => 1,
        TypeModel::GenericType(base, list) => 1 + type_size(*base) + list_size(list),
        TypeModel::Reference(inner, _, _) => 1 + type_size(*inner),
        TypeModel::Generic(_, list) => 1 + list_size(list),
    }
}

/// The number of type nodes in a list of types.
pub open spec fn list_size(list: Seq<TypeModel>) -> nat
    decreases list, 0nat,
{
    if list.len() == 0 {
        0
    } else {
        list_size(list.drop_last()) + type_size(list.last())
    }
}

/// Each type of a list is smaller than the list.
pub broadcast proof fn lemma_element_size(list: Seq<TypeModel>, k: int)
    requires
        0 <= k < list.len(),
    ensures
        #[trigger] type_size(list[k]) <= list_size(list),
    decreases list.len(),
{
    if k < list.len() - 1 {
        lemma_element_size(list.drop_last(), k);
        assert(list.drop_last()[k] == list[k]);
    }
}

/// The name of a structure up to its first `$`, which is what two structures are compared
/// by.
pub open spec fn base_name(name: Seq<char>) -> Seq<char>
    decreases name.len(),
{
    if name.len() == 0 {
        name
    } else if name[0] == '$' {
        Seq::empty()
    } else {
        seq![name[0]] + base_name(name.drop_first())
    }
}

/// How a generic type and a generic look as values, with their lists as lists of values.
pub proof fn lemma_list_models(t: FinalizedTypes)
    ensures
        t matches FinalizedTypes::GenericType(base, list) ==> type_model(t) == TypeModel::GenericType(
            Box::new(type_model(*base)),
            type_models(list@),
        ),
        t matches FinalizedTypes::Generic(name, list) ==> type_model(t) == TypeModel::Generic(
            name@,
            type_models(list@),
        ),
{
    match t {
        FinalizedTypes::GenericType(base, list) => {
            match type_model(t) {
                TypeModel::GenericType(_, models) => {
                    assert(models =~= type_models(list@));
                },
                _ => {},
            }
        },
        FinalizedTypes::Generic(name, list) => {
            match type_model(t) {
                TypeModel::Generic(_, models) => {
                    assert(models =~= type_models(list@));
                },
                _ => {},
            }
        },
        _ => {},
    }
}

/// A copy of a loan.
pub fn copy_loan(loan: &Loan) -> (r: Loan)
    ensures
        r.mutable == loan.mutable,
        r.target@ == loan.target@,
{
    let mut target: Vec<String> = Vec::new();
    let mut i: usize = 0;
    while i < loan.target.len()
        invariant
            i <= loan.target@.len(),
            target@ == loan.target@.take(i as int),
        decreases loan.target@.len() - i,
    {
        target.push(loan.target[i].clone());
        proof {
            assert(target@ =~= loan.target@.take(i + 1));
        }
        i += 1;
    }
    proof {
        assert(loan.target@.take(i as int) =~= loan.target@);
    }
    Loan { mutable: loan.mutable, target }
}

/// A copy of a list of types.
pub fn copy_types(list: &Vec<FinalizedTypes>) -> (r: Vec<FinalizedTypes>)
    ensures
        type_models(r@) == type_models(list@),
    decreases list@, 0nat,
{
    let mut out: Vec<FinalizedTypes> = Vec::new();
    let mut i: usize = 0;
    while i < list.len()
        invariant
            i <= list@.len(),
            out@.len() == i,
            forall|k: int| 0 <= k < i ==> type_model(#[trigger] out@[k]) == type_model(list@[k]),
        decreases list@.len() - i,
    {
        proof {
            assert(decreases_to!(list@ => list@[i as int]));
        }
        let item = copy_type(&list[i]);
        out.push(item);
        i += 1;
    }
    proof {
        assert(type_models(out@) =~= type_models(list@));
    }
    out
}

/// A copy of a type.
pub fn copy_type(t: &FinalizedTypes) -> (r: FinalizedTypes)
    ensures
        r@ == t@,
    decreases *t, 1nat,
{
    proof {
        lemma_list_models(*t);
    }
    match t {
        FinalizedTypes::Struct(found) => FinalizedTypes::Struct(
            FinalizedStruct { name: found.name.clone(), modifiers: found.modifiers },
        ),
        FinalizedTypes::GenericType(base, list) => {
            let copied = FinalizedTypes::GenericType(Box::new(copy_type(base)), copy_types(list));
            proof {
                lemma_list_models(copied);
            }
            copied
        },
        FinalizedTypes::Reference(inner, loan) => FinalizedTypes::Reference(
            Box::new(copy_type(inner)),
            copy_loan(loan),
        ),
        FinalizedTypes::Generic(name, list) => {
            let copied = FinalizedTypes::Generic(name.clone(), copy_types(list));
            proof {
                lemma_list_models(copied);
            }
            copied
        },
    }
}

proof fn lemma_base_name_step(name: Seq<char>, i: int)
    requires
        0 <= i < name.len(),
    ensures
        base_name(name.skip(i)) == if name[i] == '$' {
            Seq::<char>::empty()
        } else {
            seq![name[i]] + base_name(name.skip(i + 1))
        },
{
    assert(name.skip(i).drop_first() =~= name.skip(i + 1));
}

/// The characters of a name up to its first `$`.
pub fn base_name_of(name: &str) -> (r: Vec<char>)
    ensures
        r@ == base_name(name@),
{
    let chars = chars_of(name);
    let mut out: Vec<char> = Vec::new();
    let mut i: usize = 0;
    proof {
        assert(chars@.skip(0) =~= chars@);
    }
    while i < chars.len() && chars[i] != '$'
        invariant
            i <= chars@.len(),
            chars@ == name@,
            out@ + base_name(chars@.skip(i as int)) == base_name(chars@),
        decreases chars@.len() - i,
    {
        proof {
            lemma_base_name_step(chars@, i as int);
            assert(out@.push(chars@[i as int]) + base_name(chars@.skip(i + 1)) =~= out@ + (seq![chars@[i as int]]
                + base_name(chars@.skip(i + 1))));
        }
        out.push(chars[i]);
        i += 1;
    }
    proof {
        if i < chars@.len() {
            lemma_base_name_step(chars@, i as int);
        } else {
            assert(chars@.skip(i as int) =~= Seq::<char>::empty());
        }
        assert(out@ + Seq::<char>::empty() =~= out@);
    }
    out
}


} // verus!
