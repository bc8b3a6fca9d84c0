//! The layouts of the structs of a target.

use vstd::prelude::*;

verus! {

/// A member of a struct.
#[derive(PartialEq, Eq, Debug)]
pub struct StructMember {
    pub name: String,
    pub offset: u64,
    pub size: u64,
}

/// A struct and its members.
#[derive(PartialEq, Eq, Debug)]
pub struct StructInfo {
    pub name: String,
    pub size: u64,
    pub alignment: u64,
    pub members: Vec<StructMember>,
}

/// The layouts of the structs of a target.
#[derive(PartialEq, Eq, Debug)]
pub struct Structs(pub Vec<StructInfo>);

} // verus!
