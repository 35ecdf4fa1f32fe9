//! Interned path names.
use vstd::prelude::*;

verus! {

/// An interned name.
#[derive(Debug, Clone, Copy, PartialEq, Eq, Structural)]
pub struct NameId {
    pub index: usize,
}

/// A name table: every path has one identifier.
#[derive(Debug)]
pub struct Table {
    pub paths: Vec<String>,
}

impl View for Table {
    type V = Seq<Seq<char>>;

    open spec fn view(&self) -> Seq<Seq<char>> {
        Seq::new(self.paths@.len(), |i: int| self.paths@[i]@)
    }
}

impl Default for Table {
    fn default() -> (table: Table)
        ensures
            table@ == Seq::<Seq<char>>::empty(),
            table.wf(),
    {
        let table = Table { paths: Vec::new() };
        assert(table@ =~= Seq::<Seq<char>>::empty());
        table
    }
}

impl Table {
    /// No path has two identifiers.
    pub open spec fn wf(&self) -> bool {
        self@.no_duplicates()
    }

    /// The names after `path` was added to `names`.
    pub open spec fn interned(names: Seq<Seq<char>>, path: Seq<char>) -> Seq<Seq<char>> {
        if names.contains(path) {
            names
        } else {
            names.push(path)
        }
    }

    /// The identifier of `path`, which is one of `names`.
    pub open spec fn id(names: Seq<Seq<char>>, path: Seq<char>) -> NameId {
        NameId { index: names.index_of(path) as usize }
    }

    /// The identifier of `path`, if it has one.
    pub fn find(&self, path: &String) -> (name: Option<NameId>)
        requires
            self.wf(),
        ensures
            name == (if self@.contains(path@) {
                Some(Table::id(self@, path@))
            } else {
                None
            }),
            name matches Some(name) ==> {
                &&& name.index < self@.len()
                &&& self@[name.index as int] == path@
            },
    {
        let mut i: usize = 0;
        while i < self.paths.len()
            invariant
                self.wf(),
                i <= self.paths@.len(),
                forall|j: int| 0 <= j < i ==> #[trigger] self@[j] != path@,
            decreases self.paths@.len() - i,
        {
            if self.paths[i].eq(path) {
                assert(self@[i as int] == path@);
                return Some(NameId { index: i });
            }
            assert(self@[i as int] != path@);
            i += 1;
        }
        None
    }

    /// The identifier of `path`, which is added to the table if it is not there yet.
    pub fn add_path_name(&mut self, path: &String) -> (name: NameId)
        requires
            old(self).wf(),
        ensures
            final(self)@ == Table::interned(old(self)@, path@),
            name == Table::id(final(self)@, path@),
            name.index < final(self)@.len(),
            final(self)@[name.index as int] == path@,
            final(self).wf(),
    {
        match self.find(path) {
            Some(name) => name,
            None => {
                let name = NameId { index: self.paths.len() };
                self.paths.push(path.clone());
                assert(self@ =~= old(self)@.push(path@));
                assert(self@[name.index as int] == path@);
                assert(self.wf());
                name
            },
        }
    }

    /// A table with the same names.
    pub fn duplicate(&self) -> (table: Table)
        ensures
            table@ == self@,
    {
        let mut paths: Vec<String> = Vec::new();
        let mut i: usize = 0;
        while i < self.paths.len()
            invariant
                i <= self.paths@.len(),
                paths@ =~= self.paths@.take(i as int),
            decreases self.paths@.len() - i,
        {
            paths.push(self.paths[i].clone());
            i += 1;
        }
        let table = Table { paths };
        assert(table@ =~= self@);
        table
    }

    /// Adding a name keeps those that are there, and adds no second one.
    pub proof fn lemma_interned(names: Seq<Seq<char>>, path: Seq<char>)
        requires
            names.no_duplicates(),
        ensures
            Table::interned(names, path).no_duplicates(),
            Table::interned(names, path).contains(path),
            names.is_prefix_of(Table::interned(names, path)),
    {
        if !names.contains(path) {
            assert(Table::interned(names, path)[names.len() as int] == path);
        }
        assert(names =~= Table::interned(names, path).take(names.len() as int));
    }

    /// A path among names without duplicates has one position.
    pub proof fn lemma_id(names: Seq<Seq<char>>, i: int)
        requires
            names.no_duplicates(),
            0 <= i < names.len() <= usize::MAX,
        ensures
            Table::id(names, names[i]) == (NameId { index: i as usize }),
    {
        assert(names.contains(names[i]));
    }
}

} // verus!
