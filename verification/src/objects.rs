//! Kinds of things that pointers into a target point to.

use vstd::prelude::*;

verus! {

/// An object.
pub struct UObject;

/// A class.
pub struct UClass;

/// A struct.
pub struct UStruct;

/// A struct that scripts know.
pub struct UScriptStruct;

/// A function.
pub struct UFunction;

/// An enum.
pub struct UEnum;

/// A property.
pub struct ZProperty;

/// The array of all objects.
pub struct FUObjectArray;

} // verus!
