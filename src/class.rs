use vstd::prelude::*;

use crate::error::{ErrorKind, TCError, TCResult};

verus! {

/// The kinds of B-tree value.
#[derive(Clone, Copy, Debug, PartialEq, Eq, Structural)]
pub enum BTreeType {
    Tree,
    Slice,
}

/// The kinds of base table.
#[derive(Clone, Copy, Debug, PartialEq, Eq, Structural)]
pub enum TableBaseType {
    Table,
    Index,
}

/// The kinds of collection that can be created.
#[derive(Clone, Copy, Debug, PartialEq, Eq, Structural)]
pub enum CollectionBaseType {
    BTree,
    Graph,
    Table(TableBaseType),
    Tensor,
}

/// The kinds of view over a collection.
#[derive(Clone, Copy, Debug, PartialEq, Eq, Structural)]
pub enum CollectionViewType {
    BTree(BTreeType),
    Graph,
    Table,
    Tensor,
}

/// A collection type: a base collection or a view of one.
#[derive(Clone, Copy, Debug, PartialEq, Eq, Structural)]
pub enum CollectionType {
    Base(CollectionBaseType),
    View(CollectionViewType),
}

/// The collection type that a path below the collection prefix names.
pub open spec fn base_type_of(path: Seq<Seq<char>>) -> Option<CollectionBaseType> {
    if path.len() == 1 && path[0] == seq!['b', 't', 'r', 'e', 'e'] {
        Some(CollectionBaseType::BTree)
    } else if path.len() == 1 && path[0] == seq!['g', 'r', 'a', 'p', 'h'] {
        Some(CollectionBaseType::Graph)
    } else if path.len() == 1 && path[0] == seq!['t', 'a', 'b', 'l', 'e'] {
        Some(CollectionBaseType::Table(TableBaseType::Table))
    } else if path.len() == 2 && path[0] == seq!['t', 'a', 'b', 'l', 'e'] && path[1] == seq![
        'i',
        'n',
        'd',
        'e',
        'x',
    ] {
        Some(CollectionBaseType::Table(TableBaseType::Index))
    } else if path.len() == 1 && path[0] == seq!['t', 'e', 'n', 's', 'o', 'r'] {
        Some(CollectionBaseType::Tensor)
    } else {
        None
    }
}

pub open spec fn path_view(path: Seq<String>) -> Seq<Seq<char>> {
    path.map_values(|s: String| s@)
}

impl CollectionBaseType {
    /// The collection type that `path` (the segments after the collection
    /// prefix) names.
    pub fn from_path(path: &Vec<String>) -> (r: TCResult<CollectionBaseType>)
        ensures
            path@.len() == 0 ==> r is Err && r->Err_0.kind == ErrorKind::Unsupported,
            path@.len() > 0 ==> (r is Ok <==> base_type_of(path_view(path@)) is Some),
            path@.len() > 0 && r is Err ==> r->Err_0.kind == ErrorKind::NotFound,
            r is Ok ==> Some(r->Ok_0) == base_type_of(path_view(path@)),
    {
        if path.len() == 0 {
            return Err(TCError::unsupported("a collection type must be named"));
        }
        let btree = "btree".to_string();
        let graph = "graph".to_string();
        let table = "table".to_string();
        let index = "index".to_string();
        let tensor = "tensor".to_string();
        proof {
            reveal_strlit("btree");
            reveal_strlit("graph");
            reveal_strlit("table");
            reveal_strlit("index");
            reveal_strlit("tensor");
            assert(btree@ =~= seq!['b', 't', 'r', 'e', 'e']);
            assert(graph@ =~= seq!['g', 'r', 'a', 'p', 'h']);
            assert(table@ =~= seq!['t', 'a', 'b', 'l', 'e']);
            assert(index@ =~= seq!['i', 'n', 'd', 'e', 'x']);
            assert(tensor@ =~= seq!['t', 'e', 'n', 's', 'o', 'r']);
            assert(path_view(path@)[0] == path@[0]@);
            if path@.len() == 2 {
                assert(path_view(path@)[1] == path@[1]@);
            }
        }
        let one = path.len() == 1;
        if one && path[0] == btree {
            Ok(CollectionBaseType::BTree)
        } else if one && path[0] == graph {
            Ok(CollectionBaseType::Graph)
        } else if one && path[0] == table {
            Ok(CollectionBaseType::Table(TableBaseType::Table))
        } else if path.len() == 2 && path[0] == table && path[1] == index {
            Ok(CollectionBaseType::Table(TableBaseType::Index))
        } else if one && path[0] == tensor {
            Ok(CollectionBaseType::Tensor)
        } else {
            Err(TCError::not_found("no such collection type"))
        }
    }
}

impl CollectionType {
    /// Whether this is the type of a base collection.
    pub fn is_base(&self) -> (r: bool)
        ensures
            r == (*self is Base),
    {
        match self {
            CollectionType::Base(_) => true,
            CollectionType::View(_) => false,
        }
    }
}

/// A reference to a named value of the enclosing scope.
#[derive(Debug)]
pub struct IdRef {
    pub to: String,
}

impl IdRef {
    pub fn new(to: String) -> (r: IdRef)
        ensures
            r.to == to,
    {
        IdRef { to }
    }

    /// The name referred to.
    pub fn into_id(self) -> (r: String)
        ensures
            r == self.to,
    {
        self.to
    }

    /// The name referred to.
    pub fn id(&self) -> (r: &String)
        ensures
            *r == self.to,
    {
        &self.to
    }
}

} // verus!
