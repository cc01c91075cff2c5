//! Syntax trees whose names are resolved.

pub mod foo;

use crate::slots::Arena;
use std::marker::PhantomData;
use vstd::prelude::*;

verus! {

#[derive(Clone, Copy, PartialEq, Eq, Structural, Hash, Debug)]
pub struct ModId {
    pub key: u64,
}

#[derive(Clone, Copy, PartialEq, Eq, Structural, Hash, Debug)]
pub struct VarId {
    pub key: u64,
}

#[derive(Clone, Copy, PartialEq, Eq, Structural, Hash, Debug)]
pub struct StructId {
    pub key: u64,
}

/// What the variables of a tree are known by.
pub trait IdType {

}

pub struct ModInfo {
    pub name: String,
    pub parent: Option<ModId>,
    pub submods: Vec<ModId>,
}

pub struct VarInfo {
    pub name: String,
}

pub struct TypeInfo {}

pub struct AbsStore {
    pub modules: Arena<ModInfo>,
    pub vars: Arena<VarInfo>,
    pub structs: Arena<TypeInfo>,
}

/// Absolute path
pub struct Abs {
    pub module: ModId,
    pub var: VarId,
    pub kind: StructId,
}

/// Relative path
pub struct Rel {
    pub module: ModId,
    pub name: String,
}

pub enum ASTNodeKind<ID: IdType> {
    LoadVar { value: ID },
}

pub struct ASTNode<ID: IdType> {
    pub kind: ASTNodeKind<ID>,
}

pub struct AST<ID: IdType> {
    pub _p: PhantomData<ID>,
}

} // verus!
