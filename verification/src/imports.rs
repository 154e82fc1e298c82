//! What a source file imports, and the names it can resolve through them.
use vstd::prelude::*;

use crate::parse_util::key_index;
use crate::program::UnparsedType;
use crate::struct_parser::entry_views;
use crate::text::str_eq;
use crate::type_parser::{type_view, type_views};

verus! {

/// The imports of a file: each short name with the full name it stands for.
#[derive(Clone)]
pub struct ImportManager {
    /// The imported names, each with its full name; no short name occurs twice
    pub imports: Vec<(String, String)>,
    /// The current file
    pub current: String,
    /// The last label given to a code block
    pub code_block_id: u32,
}

/// The full name that the first import of `name` gives, if any.
pub open spec fn import_of(imports: Seq<(String, String)>, name: Seq<char>) -> Option<Seq<char>>
    decreases imports.len(),
{
    if imports.len() == 0 {
        None
    } else if imports[0].0@ == name {
        Some(imports[0].1@)
    } else {
        import_of(imports.drop_first(), name)
    }
}

impl ImportManager {
    /// Whether no short name is imported twice.
    pub open spec fn wf(&self) -> bool {
        forall|i: int, j: int|
            0 <= i < j < self.imports@.len() ==> #[trigger] self.imports@[i].0@ != #[trigger] self.imports@[j].0@
    }

    /// A manager for the file `current`, with nothing imported yet
    pub fn new(current: String) -> (m: Self)
        ensures
            m.imports@.len() == 0,
            m.current == current,
            m.code_block_id == 0,
            m.wf(),
    {
        ImportManager { imports: Vec::new(), current, code_block_id: 0 }
    }

    /// The full name of `input`: what it is imported as, or `input` itself where it is not
    /// imported
    pub fn get_full(&self, input: String) -> (r: String)
        ensures
            r@ == match import_of(self.imports@, input@) {
                Some(full) => full,
                None => input@,
            },
    {
        let mut i: usize = 0;
        proof {
            assert(self.imports@.skip(0) =~= self.imports@);
        }
        while i < self.imports.len()
            invariant
                i <= self.imports@.len(),
                import_of(self.imports@, input@) == import_of(self.imports@.skip(i as int), input@),
            decreases self.imports@.len() - i,
        {
            proof {
                assert(self.imports@.skip(i as int).drop_first() =~= self.imports@.skip(i + 1));
            }
            if str_eq(self.imports[i].0.as_str(), input.as_str()) {
                return self.imports[i].1.clone();
            }
            i += 1;
        }
        input
    }
}

/// Law: where no short name is imported twice, the import `get_full` finds for a name is
/// the one entry of that name, and a name with no entry finds none (so it is given back).
pub proof fn law_import_lookup(manager: ImportManager, name: Seq<char>)
    requires
        manager.wf(),
    ensures
        forall|i: int| 0 <= i < manager.imports@.len() && #[trigger] manager.imports@[i].0@ == name
            ==> import_of(manager.imports@, name) == Some(manager.imports@[i].1@),
        (forall|i: int| 0 <= i < manager.imports@.len() ==> #[trigger] manager.imports@[i].0@ != name)
            ==> import_of(manager.imports@, name) is None,
{
    lemma_import_of(manager.imports@, name);
}

proof fn lemma_import_of(imports: Seq<(String, String)>, name: Seq<char>)
    requires
        forall|i: int, j: int| 0 <= i < j < imports.len() ==> #[trigger] imports[i].0@ != #[trigger] imports[j].0@,
    ensures
        forall|i: int| 0 <= i < imports.len() && #[trigger] imports[i].0@ == name
            ==> import_of(imports, name) == Some(imports[i].1@),
        (forall|i: int| 0 <= i < imports.len() ==> #[trigger] imports[i].0@ != name) ==> import_of(imports, name) is None,
    decreases imports.len(),
{
    if imports.len() > 0 {
        let rest = imports.drop_first();
        assert forall|i: int, j: int| 0 <= i < j < rest.len() implies #[trigger] rest[i].0@ != #[trigger] rest[j].0@ by {
            assert(rest[i] == imports[i + 1]);
            assert(rest[j] == imports[j + 1]);
        }
        lemma_import_of(rest, name);
        assert forall|i: int| 0 <= i < imports.len() && #[trigger] imports[i].0@ == name
            implies import_of(imports, name) == Some(imports[i].1@) by {
            if i > 0 {
                assert(rest[i - 1] == imports[i]);
            }
        }
        if forall|i: int| 0 <= i < imports.len() ==> #[trigger] imports[i].0@ != name {
            assert forall|i: int| 0 <= i < rest.len() implies #[trigger] rest[i].0@ != name by {
                assert(rest[i] == imports[i + 1]);
            }
        }
    }
}

/// Basic name resolver implementation
#[derive(Clone)]
pub struct ImportNameResolver {
    /// The current file imports
    pub imports: Vec<String>,
    /// The current generics, each with its bounds
    pub generics: Vec<(String, Vec<UnparsedType>)>,
    /// The parent type
    pub parent: Option<UnparsedType>,
    /// Last ID used on a code block label
    pub last_id: u32,
}

impl ImportNameResolver {
    /// Creates a new name resolver, which imports the file `base` itself
    pub fn new(base: String) -> (r: Self)
        ensures
            r.imports@ == seq![base],
            r.generics@.len() == 0,
            r.parent is None,
            r.last_id == 0,
    {
        let mut imports = Vec::new();
        imports.push(base);
        ImportNameResolver { imports, generics: Vec::new(), parent: None, last_id: 0 }
    }

    /// The bounds of the generic `name`, or `None` where there is no such generic
    pub fn generic(&self, name: &String) -> (r: Option<Vec<UnparsedType>>)
        ensures
            match key_index(entry_views(self.generics@), name@, 0) {
                Some(k) => r matches Some(bounds) && type_views(bounds@) == entry_views(self.generics@)[k].1,
                None => r is None,
            },
    {
        let ghost views = entry_views(self.generics@);
        let mut i: usize = 0;
        while i < self.generics.len()
            invariant
                i <= self.generics@.len(),
                views == entry_views(self.generics@),
                key_index(views, name@, 0) == key_index(views, name@, i as int),
            decreases self.generics@.len() - i,
        {
            if str_eq(self.generics[i].0.as_str(), name.as_str()) {
                let bounds = &self.generics[i].1;
                let mut copied: Vec<UnparsedType> = Vec::new();
                let mut k: usize = 0;
                while k < bounds.len()
                    invariant
                        k <= bounds@.len(),
                        type_views(copied@) == type_views(bounds@.take(k as int)),
                    decreases bounds@.len() - k,
                {
                    let next = bounds[k].clone();
                    let ghost before = type_views(copied@);
                    copied.push(next);
                    proof {
                        assert(type_views(copied@) =~= before.push(type_view(next)));
                        assert(type_views(bounds@.take(k + 1)) =~= type_views(bounds@.take(k as int)).push(
                            type_view(bounds@[k as int]),
                        ));
                    }
                    k += 1;
                }
                proof {
                    assert(bounds@.take(k as int) =~= bounds@);
                }
                return Some(copied);
            }
            i += 1;
        }
        None
    }
}

} // verus!
