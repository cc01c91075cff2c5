//! Syntax trees as they are read, and the store of what their names stand for.

use crate::slots::Arena;
use vstd::prelude::*;

verus! {

#[derive(Clone, Copy, PartialEq, Eq, Structural, Hash, Debug)]
pub struct RawASTNodeId {
    pub key: u64,
}

#[derive(Clone, Copy, PartialEq, Eq, Structural, Hash, Debug)]
pub struct ItemId {
    pub key: u64,
}

#[derive(Clone, Copy, PartialEq, Eq, Structural, Hash, Debug)]
pub struct VarId {
    pub key: u64,
}

pub enum ItemKind {
    Mod { name: String },
    Scope,
}

pub struct Item {
    pub parent: ItemId,
}

pub struct Var {
    pub scope: ItemId,
}

pub struct CanonicalStore {
    pub items: Arena<Item>,
    pub vars: Arena<Var>,
}

pub enum RawASTNodeKind {
    Mod { name: String, body: RawASTNodeId },
    Func { name: String, body: RawASTNodeId },
    VarDefine { var: String },
    Assign { lhs: RawASTNodeId, rhs: RawASTNodeId },
}

} // verus!
