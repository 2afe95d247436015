use vstd::prelude::*;

use crate::path::RustPath;

verus! {

/// What a request changes: the name, the module, or both.
#[derive(Debug, Clone, PartialEq, Eq, Structural)]
pub enum RenameKind {
    RenameOnly,
    MoveOnly,
    MoveAndRename,
}

/// A request to replace the path `from` by the path `to`.
#[derive(Debug, Clone)]
pub struct Rename {
    pub from: RustPath,
    pub to: RustPath,
    pub kind: RenameKind,
}

impl Rename {
    /// The kind that a move from `from` to `to` has.
    pub open spec fn move_kind(from: Seq<Seq<char>>, to: Seq<Seq<char>>) -> RenameKind {
        if from.last() != to.last() {
            RenameKind::MoveAndRename
        } else {
            RenameKind::MoveOnly
        }
    }

    /// Whether the request changes the last segment.
    pub open spec fn spec_name_changed(&self) -> bool {
        self.kind == RenameKind::RenameOnly || self.kind == RenameKind::MoveAndRename
    }

    /// A request that changes the name of the item.
    pub fn new_rename(from: RustPath, to: RustPath) -> (res: Self)
        ensures
            res.from == from,
            res.to == to,
            res.kind == RenameKind::RenameOnly,
    {
        let kind = RenameKind::RenameOnly;
        Rename { from, to, kind }
    }

    /// A request that moves the item to another module; it renames the item
    /// too when the last segments differ.
    pub fn new_move(from: RustPath, to: RustPath) -> (res: Self)
        requires
            from@.len() > 0,
            to@.len() > 0,
        ensures
            res.from == from,
            res.to == to,
            res.kind == Self::move_kind(from@, to@),
    {
        let same = from.0[from.0.len() - 1] == to.0[to.0.len() - 1];
        let kind = if !same {
            RenameKind::MoveAndRename
        } else {
            RenameKind::MoveOnly
        };
        Rename { from, to, kind }
    }

    /// Whether the request changes the last segment.
    pub fn name_changed(&self) -> (res: bool)
        ensures
            res == self.spec_name_changed(),
    {
        match self.kind {
            RenameKind::RenameOnly | RenameKind::MoveAndRename => true,
            RenameKind::MoveOnly => false,
        }
    }

    /// The last segment of `from`.
    pub fn old_name(&self) -> (res: &str)
        requires
            self.from@.len() > 0,
        ensures
            res@ == self.from@.last(),
    {
        self.from.last()
    }

    /// The last segment of `to`.
    pub fn new_name(&self) -> (res: &str)
        requires
            self.to@.len() > 0,
        ensures
            res@ == self.to@.last(),
    {
        self.to.last()
    }
}

/// A move keeps the name exactly when the last segments are equal; it is
/// never a plain rename, and it changes the name exactly when the last
/// segments differ.
pub proof fn lemma_move_kind(from: Seq<Seq<char>>, to: Seq<Seq<char>>, r: Rename)
    requires
        r.kind == Rename::move_kind(from, to),
    ensures
        (Rename::move_kind(from, to) == RenameKind::MoveOnly) <==> from.last() == to.last(),
        (Rename::move_kind(from, to) == RenameKind::MoveAndRename) <==> from.last() != to.last(),
        r.spec_name_changed() <==> from.last() != to.last(),
{
}

} // verus!
