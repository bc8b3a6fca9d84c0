//! The types of properties.

use vstd::prelude::*;

use crate::mem::Ptr;
use crate::model::{CastFlag, EClassCastFlags, EPropertyFlags, Property, PropertyType};
use crate::objects::{UObject, ZProperty};
use crate::paths::{opt_path, read_path};
use crate::session::{
    Breach, ByteField, Engine, NumberField, PointerField, Query, ReadError, Session, TextField,
    WordField, World,
};

verus! {

broadcast use crate::session::group_traces;

/// The flag that decides on the type of a property: the first of those below that it has.
pub open spec fn type_flag(f: EClassCastFlags) -> Option<CastFlag> {
    if f.has(CastFlag::FStructProperty) {
        Some(CastFlag::FStructProperty)
    } else if f.has(CastFlag::FStrProperty) {
        Some(CastFlag::FStrProperty)
    } else if f.has(CastFlag::FNameProperty) {
        Some(CastFlag::FNameProperty)
    } else if f.has(CastFlag::FTextProperty) {
        Some(CastFlag::FTextProperty)
    } else if f.has(CastFlag::FMulticastInlineDelegateProperty) {
        Some(CastFlag::FMulticastInlineDelegateProperty)
    } else if f.has(CastFlag::FMulticastSparseDelegateProperty) {
        Some(CastFlag::FMulticastSparseDelegateProperty)
    } else if f.has(CastFlag::FMulticastDelegateProperty) {
        Some(CastFlag::FMulticastDelegateProperty)
    } else if f.has(CastFlag::FDelegateProperty) {
        Some(CastFlag::FDelegateProperty)
    } else if f.has(CastFlag::FBoolProperty) {
        Some(CastFlag::FBoolProperty)
    } else if f.has(CastFlag::FArrayProperty) {
        Some(CastFlag::FArrayProperty)
    } else if f.has(CastFlag::FEnumProperty) {
        Some(CastFlag::FEnumProperty)
    } else if f.has(CastFlag::FMapProperty) {
        Some(CastFlag::FMapProperty)
    } else if f.has(CastFlag::FSetProperty) {
        Some(CastFlag::FSetProperty)
    } else if f.has(CastFlag::FFloatProperty) {
        Some(CastFlag::FFloatProperty)
    } else if f.has(CastFlag::FDoubleProperty) {
        Some(CastFlag::FDoubleProperty)
    } else if f.has(CastFlag::FByteProperty) {
        Some(CastFlag::FByteProperty)
    } else if f.has(CastFlag::FUInt16Property) {
        Some(CastFlag::FUInt16Property)
    } else if f.has(CastFlag::FUInt32Property) {
        Some(CastFlag::FUInt32Property)
    } else if f.has(CastFlag::FUInt64Property) {
        Some(CastFlag::FUInt64Property)
    } else if f.has(CastFlag::FInt8Property) {
        Some(CastFlag::FInt8Property)
    } else if f.has(CastFlag::FInt16Property) {
        Some(CastFlag::FInt16Property)
    } else if f.has(CastFlag::FIntProperty) {
        Some(CastFlag::FIntProperty)
    } else if f.has(CastFlag::FInt64Property) {
        Some(CastFlag::FInt64Property)
    } else if f.has(CastFlag::FClassProperty) {
        Some(CastFlag::FClassProperty)
    } else if f.has(CastFlag::FObjectProperty) {
        Some(CastFlag::FObjectProperty)
    } else if f.has(CastFlag::FSoftClassProperty) {
        Some(CastFlag::FSoftClassProperty)
    } else if f.has(CastFlag::FSoftObjectProperty) {
        Some(CastFlag::FSoftObjectProperty)
    } else if f.has(CastFlag::FWeakObjectProperty) {
        Some(CastFlag::FWeakObjectProperty)
    } else if f.has(CastFlag::FLazyObjectProperty) {
        Some(CastFlag::FLazyObjectProperty)
    } else if f.has(CastFlag::FInterfaceProperty) {
        Some(CastFlag::FInterfaceProperty)
    } else if f.has(CastFlag::FFieldPathProperty) {
        Some(CastFlag::FFieldPathProperty)
    } else if f.has(CastFlag::FOptionalProperty) {
        Some(CastFlag::FOptionalProperty)
    } else if f.has(CastFlag::FUtf8StrProperty) {
        Some(CastFlag::FUtf8StrProperty)
    } else if f.has(CastFlag::FAnsiStrProperty) {
        Some(CastFlag::FAnsiStrProperty)
    } else {
        None
    }
}

/// Picks the flag that decides on the type of a property.
pub fn pick_type_flag(f: &EClassCastFlags) -> (r: Option<CastFlag>)
    ensures
        r == type_flag(*f),
{
    if f.contains(CastFlag::FStructProperty) {
        Some(CastFlag::FStructProperty)
    } else if f.contains(CastFlag::FStrProperty) {
        Some(CastFlag::FStrProperty)
    } else if f.contains(CastFlag::FNameProperty) {
        Some(CastFlag::FNameProperty)
    } else if f.contains(CastFlag::FTextProperty) {
        Some(CastFlag::FTextProperty)
    } else if f.contains(CastFlag::FMulticastInlineDelegateProperty) {
        Some(CastFlag::FMulticastInlineDelegateProperty)
    } else if f.contains(CastFlag::FMulticastSparseDelegateProperty) {
        Some(CastFlag::FMulticastSparseDelegateProperty)
    } else if f.contains(CastFlag::FMulticastDelegateProperty) {
        Some(CastFlag::FMulticastDelegateProperty)
    } else if f.contains(CastFlag::FDelegateProperty) {
        Some(CastFlag::FDelegateProperty)
    } else if f.contains(CastFlag::FBoolProperty) {
        Some(CastFlag::FBoolProperty)
    } else if f.contains(CastFlag::FArrayProperty) {
        Some(CastFlag::FArrayProperty)
    } else if f.contains(CastFlag::FEnumProperty) {
        Some(CastFlag::FEnumProperty)
    } else if f.contains(CastFlag::FMapProperty) {
        Some(CastFlag::FMapProperty)
    } else if f.contains(CastFlag::FSetProperty) {
        Some(CastFlag::FSetProperty)
    } else if f.contains(CastFlag::FFloatProperty) {
        Some(CastFlag::FFloatProperty)
    } else if f.contains(CastFlag::FDoubleProperty) {
        Some(CastFlag::FDoubleProperty)
    } else if f.contains(CastFlag::FByteProperty) {
        Some(CastFlag::FByteProperty)
    } else if f.contains(CastFlag::FUInt16Property) {
        Some(CastFlag::FUInt16Property)
    } else if f.contains(CastFlag::FUInt32Property) {
        Some(CastFlag::FUInt32Property)
    } else if f.contains(CastFlag::FUInt64Property) {
        Some(CastFlag::FUInt64Property)
    } else if f.contains(CastFlag::FInt8Property) {
        Some(CastFlag::FInt8Property)
    } else if f.contains(CastFlag::FInt16Property) {
        Some(CastFlag::FInt16Property)
    } else if f.contains(CastFlag::FIntProperty) {
        Some(CastFlag::FIntProperty)
    } else if f.contains(CastFlag::FInt64Property) {
        Some(CastFlag::FInt64Property)
    } else if f.contains(CastFlag::FClassProperty) {
        Some(CastFlag::FClassProperty)
    } else if f.contains(CastFlag::FObjectProperty) {
        Some(CastFlag::FObjectProperty)
    } else if f.contains(CastFlag::FSoftClassProperty) {
        Some(CastFlag::FSoftClassProperty)
    } else if f.contains(CastFlag::FSoftObjectProperty) {
        Some(CastFlag::FSoftObjectProperty)
    } else if f.contains(CastFlag::FWeakObjectProperty) {
        Some(CastFlag::FWeakObjectProperty)
    } else if f.contains(CastFlag::FLazyObjectProperty) {
        Some(CastFlag::FLazyObjectProperty)
    } else if f.contains(CastFlag::FInterfaceProperty) {
        Some(CastFlag::FInterfaceProperty)
    } else if f.contains(CastFlag::FFieldPathProperty) {
        Some(CastFlag::FFieldPathProperty)
    } else if f.contains(CastFlag::FOptionalProperty) {
        Some(CastFlag::FOptionalProperty)
    } else if f.contains(CastFlag::FUtf8StrProperty) {
        Some(CastFlag::FUtf8StrProperty)
    } else if f.contains(CastFlag::FAnsiStrProperty) {
        Some(CastFlag::FAnsiStrProperty)
    } else {
        None
    }
}

/// The path of the object whose address is in a slot that is never null.
pub open spec fn target_path(w: World, t: nat, base: u64, field: PointerField) -> (
    Result<Seq<char>, ReadError>,
    nat,
) {
    match w.pointer(t, Query::Pointer { base, field }) {
        (Ok(obj), t1) => crate::paths::path_of(w, t1, obj),
        (Err(e), t1) => (Err(e), t1),
    }
}

/// The path of the object whose address is in a slot that may be null.
pub open spec fn optional_target_path(w: World, t: nat, base: u64, field: PointerField) -> (
    Result<Option<Seq<char>>, ReadError>,
    nat,
) {
    match w.optional(t, Query::Pointer { base, field }) {
        (Ok(obj), t1) => crate::paths::optional_path_of(w, t1, obj),
        (Err(e), t1) => (Err(e), t1),
    }
}

/// Reads the path of the object whose address is in a slot that is never null.
pub fn read_target_path<B, E: Engine>(s: &mut Session<E>, base: &Ptr<B>, field: PointerField) -> (r:
    Result<String, ReadError>)
    ensures
        final(s).trace().extends(old(s).trace()),
        forall|w: World| #[trigger]
            w.explains(final(s).trace()) ==> target_path(w, old(s).now(), base.addr(), field) == (
                crate::session::outcome(r),
                final(s).now(),
            ),
{
    match s.pointer::<B, UObject>(base, Query::Pointer { base: base.address(), field }) {
        Ok(obj) => read_path(s, &obj),
        Err(e) => Err(e),
    }
}

/// Reads the path of the object whose address is in a slot that may be null.
pub fn read_optional_target_path<B, E: Engine>(
    s: &mut Session<E>,
    base: &Ptr<B>,
    field: PointerField,
) -> (r: Result<Option<String>, ReadError>)
    ensures
        final(s).trace().extends(old(s).trace()),
        forall|w: World| #[trigger]
            w.explains(final(s).trace()) ==> optional_target_path(
                w,
                old(s).now(),
                base.addr(),
                field,
            ) == (crate::session::outcome(r), final(s).now()),
{
    match s.optional::<B, UObject>(base, Query::Pointer { base: base.address(), field }) {
        Ok(obj) => opt_path(s, obj),
        Err(e) => Err(e),
    }
}

/// The four numbers that place a truth value in its bytes.
pub open spec fn bool_type(w: World, t: nat, p: u64) -> (
    Result<PropertyType<Seq<char>>, ReadError>,
    nat,
) {
    match w.byte(t, p, ByteField::BoolFieldSize) {
        (Ok(field_size), t1) => match w.byte(t1, p, ByteField::BoolByteOffset) {
            (Ok(byte_offset), t2) => match w.byte(t2, p, ByteField::BoolByteMask) {
                (Ok(byte_mask), t3) => match w.byte(t3, p, ByteField::BoolFieldMask) {
                    (Ok(field_mask), t4) => (
                        Ok(PropertyType::Bool { field_size, byte_offset, byte_mask, field_mask }),
                        t4,
                    ),
                    (Err(e), t4) => (Err(e), t4),
                },
                (Err(e), t3) => (Err(e), t3),
            },
            (Err(e), t2) => (Err(e), t2),
        },
        (Err(e), t1) => (Err(e), t1),
    }
}

/// The paths of a class and of a class that limits it.
pub open spec fn class_paths(
    w: World,
    t: nat,
    p: u64,
    class: PointerField,
    meta: PointerField,
) -> (Result<(Seq<char>, Seq<char>), ReadError>, nat) {
    match target_path(w, t, p, class) {
        (Ok(property_class), t1) => match target_path(w, t1, p, meta) {
            (Ok(meta_class), t2) => (Ok((property_class, meta_class)), t2),
            (Err(e), t2) => (Err(e), t2),
        },
        (Err(e), t1) => (Err(e), t1),
    }
}

/// The type that the deciding flag alone says, where it does.
pub open spec fn plain_type(kind: CastFlag) -> Option<PropertyType<Seq<char>>> {
    match kind {
        CastFlag::FStrProperty => Some(PropertyType::Str),
        CastFlag::FNameProperty => Some(PropertyType::Name),
        CastFlag::FTextProperty => Some(PropertyType::Text),
        CastFlag::FFloatProperty => Some(PropertyType::Float),
        CastFlag::FDoubleProperty => Some(PropertyType::Double),
        CastFlag::FUInt16Property => Some(PropertyType::UInt16),
        CastFlag::FUInt32Property => Some(PropertyType::UInt32),
        CastFlag::FUInt64Property => Some(PropertyType::UInt64),
        CastFlag::FInt8Property => Some(PropertyType::Int8),
        CastFlag::FInt16Property => Some(PropertyType::Int16),
        CastFlag::FIntProperty => Some(PropertyType::Int),
        CastFlag::FInt64Property => Some(PropertyType::Int64),
        CastFlag::FFieldPathProperty => Some(PropertyType::FieldPath),
        CastFlag::FUtf8StrProperty => Some(PropertyType::Utf8Str),
        CastFlag::FAnsiStrProperty => Some(PropertyType::AnsiStr),
        _ => None,
    }
}

fn pick_plain_type(kind: CastFlag) -> (r: Option<PropertyType>)
    ensures
        r.deep_view() == plain_type(kind),
{
    match kind {
        CastFlag::FStrProperty => Some(PropertyType::Str),
        CastFlag::FNameProperty => Some(PropertyType::Name),
        CastFlag::FTextProperty => Some(PropertyType::Text),
        CastFlag::FFloatProperty => Some(PropertyType::Float),
        CastFlag::FDoubleProperty => Some(PropertyType::Double),
        CastFlag::FUInt16Property => Some(PropertyType::UInt16),
        CastFlag::FUInt32Property => Some(PropertyType::UInt32),
        CastFlag::FUInt64Property => Some(PropertyType::UInt64),
        CastFlag::FInt8Property => Some(PropertyType::Int8),
        CastFlag::FInt16Property => Some(PropertyType::Int16),
        CastFlag::FIntProperty => Some(PropertyType::Int),
        CastFlag::FInt64Property => Some(PropertyType::Int64),
        CastFlag::FFieldPathProperty => Some(PropertyType::FieldPath),
        CastFlag::FUtf8StrProperty => Some(PropertyType::Utf8Str),
        CastFlag::FAnsiStrProperty => Some(PropertyType::AnsiStr),
        _ => None,
    }
}

/// The slot of the object whose path a type names, where it names one that is never missing.
pub open spec fn path_slot(kind: CastFlag) -> Option<PointerField> {
    match kind {
        CastFlag::FStructProperty => Some(PointerField::StructPropertyStruct),
        CastFlag::FObjectProperty => Some(PointerField::ObjectPropertyClass),
        CastFlag::FSoftObjectProperty => Some(PointerField::SoftObjectPropertyClass),
        CastFlag::FWeakObjectProperty => Some(PointerField::WeakObjectPropertyClass),
        CastFlag::FLazyObjectProperty => Some(PointerField::LazyObjectPropertyClass),
        CastFlag::FInterfaceProperty => Some(PointerField::InterfaceClass),
        _ => None,
    }
}

fn pick_path_slot(kind: CastFlag) -> (r: Option<PointerField>)
    ensures
        r == path_slot(kind),
{
    match kind {
        CastFlag::FStructProperty => Some(PointerField::StructPropertyStruct),
        CastFlag::FObjectProperty => Some(PointerField::ObjectPropertyClass),
        CastFlag::FSoftObjectProperty => Some(PointerField::SoftObjectPropertyClass),
        CastFlag::FWeakObjectProperty => Some(PointerField::WeakObjectPropertyClass),
        CastFlag::FLazyObjectProperty => Some(PointerField::LazyObjectPropertyClass),
        CastFlag::FInterfaceProperty => Some(PointerField::InterfaceClass),
        _ => None,
    }
}

/// The type that names that path.
pub open spec fn path_type(kind: CastFlag, path: Seq<char>) -> PropertyType<Seq<char>> {
    match kind {
        CastFlag::FStructProperty => PropertyType::Struct { struct_path: path },
        CastFlag::FObjectProperty => PropertyType::Object { property_class: path },
        CastFlag::FSoftObjectProperty => PropertyType::SoftObject { property_class: path },
        CastFlag::FWeakObjectProperty => PropertyType::WeakObject { property_class: path },
        CastFlag::FLazyObjectProperty => PropertyType::LazyObject { property_class: path },
        CastFlag::FInterfaceProperty => PropertyType::Interface { interface_class: path },
        _ => PropertyType::Str,
    }
}

fn make_path_type(kind: CastFlag, path: String) -> (r: PropertyType)
    ensures
        r.deep_view() == path_type(kind, path.deep_view()),
{
    match kind {
        CastFlag::FStructProperty => PropertyType::Struct { struct_path: path },
        CastFlag::FObjectProperty => PropertyType::Object { property_class: path },
        CastFlag::FSoftObjectProperty => PropertyType::SoftObject { property_class: path },
        CastFlag::FWeakObjectProperty => PropertyType::WeakObject { property_class: path },
        CastFlag::FLazyObjectProperty => PropertyType::LazyObject { property_class: path },
        CastFlag::FInterfaceProperty => PropertyType::Interface { interface_class: path },
        _ => PropertyType::Str,
    }
}

/// The slot of the object whose path a type names, where it names one that may be missing.
pub open spec fn optional_path_slot(kind: CastFlag) -> Option<PointerField> {
    match kind {
        CastFlag::FMulticastInlineDelegateProperty => Some(
            PointerField::MulticastDelegateSignature,
        ),
        CastFlag::FMulticastSparseDelegateProperty => Some(
            PointerField::MulticastDelegateSignature,
        ),
        CastFlag::FMulticastDelegateProperty => Some(PointerField::MulticastDelegateSignature),
        CastFlag::FDelegateProperty => Some(PointerField::DelegateSignature),
        CastFlag::FByteProperty => Some(PointerField::ByteEnum),
        _ => None,
    }
}

fn pick_optional_path_slot(kind: CastFlag) -> (r: Option<PointerField>)
    ensures
        r == optional_path_slot(kind),
{
    match kind {
        CastFlag::FMulticastInlineDelegateProperty => Some(
            PointerField::MulticastDelegateSignature,
        ),
        CastFlag::FMulticastSparseDelegateProperty => Some(
            PointerField::MulticastDelegateSignature,
        ),
        CastFlag::FMulticastDelegateProperty => Some(PointerField::MulticastDelegateSignature),
        CastFlag::FDelegateProperty => Some(PointerField::DelegateSignature),
        CastFlag::FByteProperty => Some(PointerField::ByteEnum),
        _ => None,
    }
}

/// The type that names that path.
pub open spec fn optional_path_type(kind: CastFlag, path: Option<Seq<char>>) -> PropertyType<
    Seq<char>,
> {
    match kind {
        CastFlag::FMulticastInlineDelegateProperty => PropertyType::MulticastInlineDelegate {
            signature_function: path,
        },
        CastFlag::FMulticastSparseDelegateProperty => PropertyType::MulticastSparseDelegate {
            signature_function: path,
        },
        CastFlag::FMulticastDelegateProperty => PropertyType::MulticastDelegate {
            signature_function: path,
        },
        CastFlag::FDelegateProperty => PropertyType::Delegate { signature_function: path },
        CastFlag::FByteProperty => PropertyType::Byte { enum_path: path },
        _ => PropertyType::Str,
    }
}

fn make_optional_path_type(kind: CastFlag, path: Option<String>) -> (r: PropertyType)
    ensures
        r.deep_view() == optional_path_type(kind, path.deep_view()),
{
    match kind {
        CastFlag::FMulticastInlineDelegateProperty => PropertyType::MulticastInlineDelegate {
            signature_function: path,
        },
        CastFlag::FMulticastSparseDelegateProperty => PropertyType::MulticastSparseDelegate {
            signature_function: path,
        },
        CastFlag::FMulticastDelegateProperty => PropertyType::MulticastDelegate {
            signature_function: path,
        },
        CastFlag::FDelegateProperty => PropertyType::Delegate { signature_function: path },
        CastFlag::FByteProperty => PropertyType::Byte { enum_path: path },
        _ => PropertyType::Str,
    }
}

/// The slot of the property that a type is made of, where it is made of one.
pub open spec fn inner_slot(kind: CastFlag) -> Option<PointerField> {
    match kind {
        CastFlag::FArrayProperty => Some(PointerField::ArrayInner),
        CastFlag::FSetProperty => Some(PointerField::SetElement),
        CastFlag::FOptionalProperty => Some(PointerField::OptionalValue),
        _ => None,
    }
}

fn pick_inner_slot(kind: CastFlag) -> (r: Option<PointerField>)
    ensures
        r == inner_slot(kind),
{
    match kind {
        CastFlag::FArrayProperty => Some(PointerField::ArrayInner),
        CastFlag::FSetProperty => Some(PointerField::SetElement),
        CastFlag::FOptionalProperty => Some(PointerField::OptionalValue),
        _ => None,
    }
}

/// The type that is made of that property.
pub open spec fn inner_type(kind: CastFlag, inner: Property<Seq<char>>) -> PropertyType<Seq<char>> {
    match kind {
        CastFlag::FArrayProperty => PropertyType::Array { inner: Box::new(inner) },
        CastFlag::FSetProperty => PropertyType::SetOf { key_prop: Box::new(inner) },
        CastFlag::FOptionalProperty => PropertyType::Optional { inner: Box::new(inner) },
        _ => PropertyType::Str,
    }
}

fn make_inner_type(kind: CastFlag, inner: Property) -> (r: PropertyType)
    ensures
        r.deep_view() == inner_type(kind, inner.deep_view()),
{
    match kind {
        CastFlag::FArrayProperty => PropertyType::Array { inner: Box::new(inner) },
        CastFlag::FSetProperty => PropertyType::SetOf { key_prop: Box::new(inner) },
        CastFlag::FOptionalProperty => PropertyType::Optional { inner: Box::new(inner) },
        _ => PropertyType::Str,
    }
}

/// The type of a property that holds a class.
pub open spec fn class_type(w: World, t: nat, p: u64) -> (
    Result<PropertyType<Seq<char>>, ReadError>,
    nat,
) {
    match class_paths(w, t, p, PointerField::ClassPropertyClass, PointerField::ClassMetaClass) {
        (Ok((property_class, meta_class)), t1) => (
            Ok(PropertyType::Class { property_class, meta_class }),
            t1,
        ),
        (Err(e), t1) => (Err(e), t1),
    }
}

/// The type of a property that holds a class by path.
pub open spec fn soft_class_type(w: World, t: nat, p: u64) -> (
    Result<PropertyType<Seq<char>>, ReadError>,
    nat,
) {
    match class_paths(
        w,
        t,
        p,
        PointerField::SoftClassPropertyClass,
        PointerField::SoftClassMetaClass,
    ) {
        (Ok((property_class, meta_class)), t1) => (
            Ok(PropertyType::SoftClass { property_class, meta_class }),
            t1,
        ),
        (Err(e), t1) => (Err(e), t1),
    }
}

/// The property whose address is in a slot.
pub open spec fn inner_property(w: World, t: nat, p: u64, field: PointerField) -> (
    Result<Property<Seq<char>>, ReadError>,
    nat,
)
    decreases w.limit - t, 0int,
{
    match w.pointer(t, Query::Pointer { base: p, field }) {
        (Ok(inner), t1) => property_of(w, t1, inner),
        (Err(e), t1) => (Err(e), t1),
    }
}

/// The type of an enum property: the property that holds the number, and the enum.
pub open spec fn enum_type(w: World, t: nat, p: u64) -> (
    Result<PropertyType<Seq<char>>, ReadError>,
    nat,
)
    decreases w.limit - t, 1int,
{
    match inner_property(w, t, p, PointerField::EnumUnderlying) {
        (Ok(container), t1) => match optional_target_path(w, t1, p, PointerField::EnumEnum) {
            (Ok(enum_path), t2) => (
                Ok(PropertyType::Enum { container: Box::new(container), enum_path }),
                t2,
            ),
            (Err(e), t2) => (Err(e), t2),
        },
        (Err(e), t1) => (Err(e), t1),
    }
}

/// The type of a map: those of its keys and of its values.
pub open spec fn map_type(w: World, t: nat, p: u64) -> (
    Result<PropertyType<Seq<char>>, ReadError>,
    nat,
)
    decreases w.limit - t, 1int,
{
    match inner_property(w, t, p, PointerField::MapKey) {
        (Ok(key_prop), t1) => match inner_property(w, w.later(t, t1), p, PointerField::MapValue) {
            (Ok(value_prop), t2) => (
                Ok(
                    PropertyType::MapOf {
                        key_prop: Box::new(key_prop),
                        value_prop: Box::new(value_prop),
                    },
                ),
                t2,
            ),
            (Err(e), t2) => (Err(e), t2),
        },
        (Err(e), t1) => (Err(e), t1),
    }
}

/// The type of a property, as the deciding flag says.
pub open spec fn type_of(w: World, t: nat, p: u64, kind: CastFlag) -> (
    Result<PropertyType<Seq<char>>, ReadError>,
    nat,
)
    decreases w.limit - t, 2int,
{
    if plain_type(kind) is Some {
        (Ok(plain_type(kind)->0), t)
    } else if path_slot(kind) is Some {
        match target_path(w, t, p, path_slot(kind)->0) {
            (Ok(path), t1) => (Ok(path_type(kind, path)), t1),
            (Err(e), t1) => (Err(e), t1),
        }
    } else if optional_path_slot(kind) is Some {
        match optional_target_path(w, t, p, optional_path_slot(kind)->0) {
            (Ok(path), t1) => (Ok(optional_path_type(kind, path)), t1),
            (Err(e), t1) => (Err(e), t1),
        }
    } else if inner_slot(kind) is Some {
        match inner_property(w, t, p, inner_slot(kind)->0) {
            (Ok(inner), t1) => (Ok(inner_type(kind, inner)), t1),
            (Err(e), t1) => (Err(e), t1),
        }
    } else {
        match kind {
            CastFlag::FBoolProperty => bool_type(w, t, p),
            CastFlag::FEnumProperty => enum_type(w, t, p),
            CastFlag::FMapProperty => map_type(w, t, p),
            CastFlag::FClassProperty => class_type(w, t, p),
            CastFlag::FSoftClassProperty => soft_class_type(w, t, p),
            _ => (Err(ReadError::UnexpectedReply), t),
        }
    }
}

/// What every property has besides its name and type.
pub open spec fn property_frame(
    w: World,
    t: nat,
    p: u64,
    name: Seq<char>,
    kind: PropertyType<Seq<char>>,
) -> (Result<Property<Seq<char>>, ReadError>, nat) {
    match w.number(t, p, NumberField::PropertyOffset) {
        (Ok(offset), t1) => match w.number(t1, p, NumberField::PropertyArrayDim) {
            (Ok(array_dim), t2) => match w.number(t2, p, NumberField::PropertyElementSize) {
                (Ok(size), t3) => match w.word(t3, p, WordField::PropertyFlags) {
                    (Ok(bits), t4) => (
                        Ok(
                            Property {
                                address: p,
                                name,
                                offset: offset as usize,
                                array_dim: array_dim as usize,
                                size: size as usize,
                                flags: EPropertyFlags { bits },
                                kind,
                            },
                        ),
                        t4,
                    ),
                    (Err(e), t4) => (Err(e), t4),
                },
                (Err(e), t3) => (Err(e), t3),
            },
            (Err(e), t2) => (Err(e), t2),
        },
        (Err(e), t1) => (Err(e), t1),
    }
}

/// A property: its name, its type and where its values lie.
pub open spec fn property_of(w: World, t: nat, p: u64) -> (
    Result<Property<Seq<char>>, ReadError>,
    nat,
)
    decreases w.limit - t, 0int,
{
    match w.text(t, p, TextField::FieldName) {
        (Ok(name), t1) => match w.cast_flags(t1, Query::FieldCastFlags { base: p }) {
            (Ok(f), t2) => match type_flag(f) {
                Some(flag) => match type_of(w, t2, p, flag) {
                    (Ok(kind), t3) => property_frame(w, t3, p, name, kind),
                    (Err(e), t3) => (Err(e), t3),
                },
                None => (
                    Err(ReadError::Broken(Breach::UnknownPropertyKind { bits: f.bits })),
                    t2,
                ),
            },
            (Err(e), t2) => (Err(e), t2),
        },
        (Err(e), t1) => (Err(e), t1),
    }
}

fn read_bool_type<E: Engine>(s: &mut Session<E>, ptr: &Ptr<ZProperty>) -> (r: Result<
    PropertyType,
    ReadError,
>)
    ensures
        final(s).trace().extends(old(s).trace()),
        forall|w: World| #[trigger]
            w.explains(final(s).trace()) ==> bool_type(w, old(s).now(), ptr.addr()) == (
                crate::session::outcome(r),
                final(s).now(),
            ),
{
    let field_size = match s.byte(ptr.address(), ByteField::BoolFieldSize) {
        Ok(b) => b,
        Err(e) => {
            return Err(e);
        },
    };
    let byte_offset = match s.byte(ptr.address(), ByteField::BoolByteOffset) {
        Ok(b) => b,
        Err(e) => {
            return Err(e);
        },
    };
    let byte_mask = match s.byte(ptr.address(), ByteField::BoolByteMask) {
        Ok(b) => b,
        Err(e) => {
            return Err(e);
        },
    };
    let field_mask = match s.byte(ptr.address(), ByteField::BoolFieldMask) {
        Ok(b) => b,
        Err(e) => {
            return Err(e);
        },
    };
    Ok(PropertyType::Bool { field_size, byte_offset, byte_mask, field_mask })
}

fn read_class_paths<E: Engine>(
    s: &mut Session<E>,
    ptr: &Ptr<ZProperty>,
    class: PointerField,
    meta: PointerField,
) -> (r: Result<(String, String), ReadError>)
    ensures
        final(s).trace().extends(old(s).trace()),
        forall|w: World| #[trigger]
            w.explains(final(s).trace()) ==> class_paths(w, old(s).now(), ptr.addr(), class, meta)
                == (crate::session::outcome(r), final(s).now()),
{
    match read_target_path(s, ptr, class) {
        Ok(property_class) => match read_target_path(s, ptr, meta) {
            Ok(meta_class) => Ok((property_class, meta_class)),
            Err(e) => Err(e),
        },
        Err(e) => Err(e),
    }
}

fn read_inner<E: Engine>(s: &mut Session<E>, ptr: &Ptr<ZProperty>, field: PointerField) -> (r:
    Result<Property, ReadError>)
    ensures
        final(s).trace().extends(old(s).trace()),
        forall|w: World| #[trigger]
            w.explains(final(s).trace()) ==> inner_property(w, old(s).now(), ptr.addr(), field)
                == (crate::session::outcome(r), final(s).now()),
    decreases old(s).spec_left(), 0int,
{
    match s.pointer::<ZProperty, ZProperty>(ptr, Query::Pointer { base: ptr.address(), field }) {
        Ok(inner) => read_prop_type(s, &inner),
        Err(e) => Err(e),
    }
}

fn read_enum_type<E: Engine>(s: &mut Session<E>, ptr: &Ptr<ZProperty>) -> (r: Result<
    PropertyType,
    ReadError,
>)
    ensures
        final(s).trace().extends(old(s).trace()),
        forall|w: World| #[trigger]
            w.explains(final(s).trace()) ==> enum_type(w, old(s).now(), ptr.addr()) == (
                crate::session::outcome(r),
                final(s).now(),
            ),
    decreases old(s).spec_left(), 1int,
{
    match read_inner(s, ptr, PointerField::EnumUnderlying) {
        Ok(container) => match read_optional_target_path(s, ptr, PointerField::EnumEnum) {
            Ok(enum_path) => Ok(PropertyType::Enum { container: Box::new(container), enum_path }),
            Err(e) => Err(e),
        },
        Err(e) => Err(e),
    }
}

fn read_map_type<E: Engine>(s: &mut Session<E>, ptr: &Ptr<ZProperty>) -> (r: Result<
    PropertyType,
    ReadError,
>)
    ensures
        final(s).trace().extends(old(s).trace()),
        forall|w: World| #[trigger]
            w.explains(final(s).trace()) ==> map_type(w, old(s).now(), ptr.addr()) == (
                crate::session::outcome(r),
                final(s).now(),
            ),
    decreases old(s).spec_left(), 1int,
{
    match read_inner(s, ptr, PointerField::MapKey) {
        Ok(key_prop) => match read_inner(s, ptr, PointerField::MapValue) {
            Ok(value_prop) => Ok(
                PropertyType::MapOf {
                    key_prop: Box::new(key_prop),
                    value_prop: Box::new(value_prop),
                },
            ),
            Err(e) => Err(e),
        },
        Err(e) => Err(e),
    }
}

fn read_type<E: Engine>(s: &mut Session<E>, ptr: &Ptr<ZProperty>, kind: CastFlag) -> (r: Result<
    PropertyType,
    ReadError,
>)
    ensures
        final(s).trace().extends(old(s).trace()),
        forall|w: World| #[trigger]
            w.explains(final(s).trace()) ==> type_of(w, old(s).now(), ptr.addr(), kind) == (
                crate::session::outcome(r),
                final(s).now(),
            ),
    decreases old(s).spec_left(), 2int,
{
    if let Some(plain) = pick_plain_type(kind) {
        return Ok(plain);
    }
    if let Some(slot) = pick_path_slot(kind) {
        return match read_target_path(s, ptr, slot) {
            Ok(path) => Ok(make_path_type(kind, path)),
            Err(e) => Err(e),
        };
    }
    if let Some(slot) = pick_optional_path_slot(kind) {
        return match read_optional_target_path(s, ptr, slot) {
            Ok(path) => Ok(make_optional_path_type(kind, path)),
            Err(e) => Err(e),
        };
    }
    if let Some(slot) = pick_inner_slot(kind) {
        return match read_inner(s, ptr, slot) {
            Ok(inner) => Ok(make_inner_type(kind, inner)),
            Err(e) => Err(e),
        };
    }
    match kind {
        CastFlag::FBoolProperty => read_bool_type(s, ptr),
        CastFlag::FEnumProperty => read_enum_type(s, ptr),
        CastFlag::FMapProperty => read_map_type(s, ptr),
        CastFlag::FClassProperty => match read_class_paths(
            s,
            ptr,
            PointerField::ClassPropertyClass,
            PointerField::ClassMetaClass,
        ) {
            Ok((property_class, meta_class)) => Ok(
                PropertyType::Class { property_class, meta_class },
            ),
            Err(e) => Err(e),
        },
        CastFlag::FSoftClassProperty => match read_class_paths(
            s,
            ptr,
            PointerField::SoftClassPropertyClass,
            PointerField::SoftClassMetaClass,
        ) {
            Ok((property_class, meta_class)) => Ok(
                PropertyType::SoftClass { property_class, meta_class },
            ),
            Err(e) => Err(e),
        },
        _ => Err(ReadError::UnexpectedReply),
    }
}

/// Reads a property: its name, its type and where its values lie.
pub fn read_prop_type<E: Engine>(s: &mut Session<E>, ptr: &Ptr<ZProperty>) -> (r: Result<
    Property,
    ReadError,
>)
    ensures
        final(s).trace().extends(old(s).trace()),
        forall|w: World| #[trigger]
            w.explains(final(s).trace()) ==> property_of(w, old(s).now(), ptr.addr()) == (
                crate::session::outcome(r),
                final(s).now(),
            ),
    decreases old(s).spec_left(), 0int,
{
    let name = match s.text(ptr.address(), TextField::FieldName) {
        Ok(name) => name,
        Err(e) => {
            return Err(e);
        },
    };
    let f = match s.cast_flags(Query::FieldCastFlags { base: ptr.address() }) {
        Ok(f) => f,
        Err(e) => {
            return Err(e);
        },
    };
    let kind = match pick_type_flag(&f) {
        Some(flag) => match read_type(s, ptr, flag) {
            Ok(kind) => kind,
            Err(e) => {
                return Err(e);
            },
        },
        None => {
            return Err(ReadError::Broken(Breach::UnknownPropertyKind { bits: f.bits }));
        },
    };
    let offset = match s.number(ptr.address(), NumberField::PropertyOffset) {
        Ok(n) => n,
        Err(e) => {
            return Err(e);
        },
    };
    let array_dim = match s.number(ptr.address(), NumberField::PropertyArrayDim) {
        Ok(n) => n,
        Err(e) => {
            return Err(e);
        },
    };
    let size = match s.number(ptr.address(), NumberField::PropertyElementSize) {
        Ok(n) => n,
        Err(e) => {
            return Err(e);
        },
    };
    let bits = match s.word(ptr.address(), WordField::PropertyFlags) {
        Ok(n) => n,
        Err(e) => {
            return Err(e);
        },
    };
    Ok(
        Property {
            address: ptr.address(),
            name,
            offset: offset as usize,
            array_dim: array_dim as usize,
            size: size as usize,
            flags: EPropertyFlags { bits },
            kind,
        },
    )
}

/// Whether `flag` is the first flag of an order that is among `flags`.
pub open spec fn is_first(order: Seq<CastFlag>, flags: Seq<CastFlag>, flag: CastFlag) -> bool {
    exists|i: int|
        0 <= i < order.len() && #[trigger] order[i] == flag && flags.contains(flag) && forall|j: int|
            0 <= j < i ==> !flags.contains(#[trigger] order[j])
}

/// The flags that name kinds of properties. Of those that a property has the first decides on its
/// type: the closer a kind describes a property, the earlier its flag stands.
pub open spec fn type_order() -> Seq<CastFlag> {
    seq![
        CastFlag::FStructProperty,
        CastFlag::FStrProperty,
        CastFlag::FNameProperty,
        CastFlag::FTextProperty,
        CastFlag::FMulticastInlineDelegateProperty,
        CastFlag::FMulticastSparseDelegateProperty,
        CastFlag::FMulticastDelegateProperty,
        CastFlag::FDelegateProperty,
        CastFlag::FBoolProperty,
        CastFlag::FArrayProperty,
        CastFlag::FEnumProperty,
        CastFlag::FMapProperty,
        CastFlag::FSetProperty,
        CastFlag::FFloatProperty,
        CastFlag::FDoubleProperty,
        CastFlag::FByteProperty,
        CastFlag::FUInt16Property,
        CastFlag::FUInt32Property,
        CastFlag::FUInt64Property,
        CastFlag::FInt8Property,
        CastFlag::FInt16Property,
        CastFlag::FIntProperty,
        CastFlag::FInt64Property,
        CastFlag::FClassProperty,
        CastFlag::FObjectProperty,
        CastFlag::FSoftClassProperty,
        CastFlag::FSoftObjectProperty,
        CastFlag::FWeakObjectProperty,
        CastFlag::FLazyObjectProperty,
        CastFlag::FInterfaceProperty,
        CastFlag::FFieldPathProperty,
        CastFlag::FOptionalProperty,
        CastFlag::FUtf8StrProperty,
        CastFlag::FAnsiStrProperty,
    ]
}

/// A property is of the first kind that one of its flags names.
pub proof fn first_kind_decides_on_type(f: EClassCastFlags)
    ensures
        match type_flag(f) {
            Some(flag) => is_first(type_order(), f.named@, flag),
            None => forall|i: int|
                0 <= i < type_order().len() ==> !f.named@.contains(#[trigger] type_order()[i]),
        },
{
    let order = type_order();
    if let Some(flag) = type_flag(f) {
        let i = choose|i: int| 0 <= i < order.len() && #[trigger] order[i] == flag;
        assert(exists|i: int| 0 <= i < order.len() && #[trigger] order[i] == flag) by {
            assert(order[0] == CastFlag::FStructProperty);
            assert(order[1] == CastFlag::FStrProperty);
            assert(order[2] == CastFlag::FNameProperty);
            assert(order[3] == CastFlag::FTextProperty);
            assert(order[4] == CastFlag::FMulticastInlineDelegateProperty);
            assert(order[5] == CastFlag::FMulticastSparseDelegateProperty);
            assert(order[6] == CastFlag::FMulticastDelegateProperty);
            assert(order[7] == CastFlag::FDelegateProperty);
            assert(order[8] == CastFlag::FBoolProperty);
            assert(order[9] == CastFlag::FArrayProperty);
            assert(order[10] == CastFlag::FEnumProperty);
            assert(order[11] == CastFlag::FMapProperty);
            assert(order[12] == CastFlag::FSetProperty);
            assert(order[13] == CastFlag::FFloatProperty);
            assert(order[14] == CastFlag::FDoubleProperty);
            assert(order[15] == CastFlag::FByteProperty);
            assert(order[16] == CastFlag::FUInt16Property);
            assert(order[17] == CastFlag::FUInt32Property);
            assert(order[18] == CastFlag::FUInt64Property);
            assert(order[19] == CastFlag::FInt8Property);
            assert(order[20] == CastFlag::FInt16Property);
            assert(order[21] == CastFlag::FIntProperty);
            assert(order[22] == CastFlag::FInt64Property);
            assert(order[23] == CastFlag::FClassProperty);
            assert(order[24] == CastFlag::FObjectProperty);
            assert(order[25] == CastFlag::FSoftClassProperty);
            assert(order[26] == CastFlag::FSoftObjectProperty);
            assert(order[27] == CastFlag::FWeakObjectProperty);
            assert(order[28] == CastFlag::FLazyObjectProperty);
            assert(order[29] == CastFlag::FInterfaceProperty);
            assert(order[30] == CastFlag::FFieldPathProperty);
            assert(order[31] == CastFlag::FOptionalProperty);
            assert(order[32] == CastFlag::FUtf8StrProperty);
            assert(order[33] == CastFlag::FAnsiStrProperty);
        }
        assert forall|j: int| 0 <= j < i implies !f.named@.contains(#[trigger] order[j]) by {}
    }
}

/// Whether the object in a slot has that path.
pub open spec fn names_object(w: World, base: u64, field: PointerField, path: Seq<char>) -> bool {
    w.told_slot(base, field) matches Some(a) && a != 0 && crate::paths::has_path(w, a, path)
}

/// Whether the object in a slot has that path, or there is neither.
pub open spec fn may_name_object(
    w: World,
    base: u64,
    field: PointerField,
    path: Option<Seq<char>>,
) -> bool {
    w.told_slot(base, field) matches Some(a) && match path {
        Some(path) => a != 0 && crate::paths::has_path(w, a, path),
        None => a == 0,
    }
}

/// Whether a property can be read and is that one.
pub open spec fn has_property(w: World, p: u64, property: Property<Seq<char>>) -> bool {
    exists|t: nat| (#[trigger] property_of(w, t, p)).0 == Ok::<_, ReadError>(property)
}

/// Whether the property in a slot is that one.
pub open spec fn holds_property(
    w: World,
    base: u64,
    field: PointerField,
    property: Property<Seq<char>>,
) -> bool {
    w.told_slot(base, field) matches Some(a) && a != 0 && has_property(w, a, property)
}

/// Whether `kind` is what the target says of a property at `p` with that deciding flag: a class by
/// the paths in its slots, an array by the property in its slot, and so on.
pub open spec fn type_told(
    w: World,
    p: u64,
    flag: CastFlag,
    kind: PropertyType<Seq<char>>,
) -> bool {
    match flag {
        CastFlag::FStrProperty => kind == PropertyType::<Seq<char>>::Str,
        CastFlag::FNameProperty => kind == PropertyType::<Seq<char>>::Name,
        CastFlag::FTextProperty => kind == PropertyType::<Seq<char>>::Text,
        CastFlag::FFloatProperty => kind == PropertyType::<Seq<char>>::Float,
        CastFlag::FDoubleProperty => kind == PropertyType::<Seq<char>>::Double,
        CastFlag::FUInt16Property => kind == PropertyType::<Seq<char>>::UInt16,
        CastFlag::FUInt32Property => kind == PropertyType::<Seq<char>>::UInt32,
        CastFlag::FUInt64Property => kind == PropertyType::<Seq<char>>::UInt64,
        CastFlag::FInt8Property => kind == PropertyType::<Seq<char>>::Int8,
        CastFlag::FInt16Property => kind == PropertyType::<Seq<char>>::Int16,
        CastFlag::FIntProperty => kind == PropertyType::<Seq<char>>::Int,
        CastFlag::FInt64Property => kind == PropertyType::<Seq<char>>::Int64,
        CastFlag::FFieldPathProperty => kind == PropertyType::<Seq<char>>::FieldPath,
        CastFlag::FUtf8StrProperty => kind == PropertyType::<Seq<char>>::Utf8Str,
        CastFlag::FAnsiStrProperty => kind == PropertyType::<Seq<char>>::AnsiStr,
        CastFlag::FStructProperty =>
            kind matches PropertyType::Struct { struct_path } && names_object(
                w,
                p,
                PointerField::StructPropertyStruct,
                struct_path,
            ),
        CastFlag::FMulticastInlineDelegateProperty =>
            kind matches PropertyType::MulticastInlineDelegate { signature_function } && may_name_object(
                w,
                p,
                PointerField::MulticastDelegateSignature,
                signature_function,
            ),
        CastFlag::FMulticastSparseDelegateProperty =>
            kind matches PropertyType::MulticastSparseDelegate { signature_function } && may_name_object(
                w,
                p,
                PointerField::MulticastDelegateSignature,
                signature_function,
            ),
        CastFlag::FMulticastDelegateProperty =>
            kind matches PropertyType::MulticastDelegate { signature_function } && may_name_object(
                w,
                p,
                PointerField::MulticastDelegateSignature,
                signature_function,
            ),
        CastFlag::FDelegateProperty =>
            kind matches PropertyType::Delegate { signature_function } && may_name_object(
                w,
                p,
                PointerField::DelegateSignature,
                signature_function,
            ),
        CastFlag::FBoolProperty => kind matches PropertyType::Bool {
            field_size,
            byte_offset,
            byte_mask,
            field_mask,
        } && {
            &&& w.told_byte(p, ByteField::BoolFieldSize) == Some(field_size)
            &&& w.told_byte(p, ByteField::BoolByteOffset) == Some(byte_offset)
            &&& w.told_byte(p, ByteField::BoolByteMask) == Some(byte_mask)
            &&& w.told_byte(p, ByteField::BoolFieldMask) == Some(field_mask)
        },
        CastFlag::FArrayProperty => kind matches PropertyType::Array { inner } && holds_property(
            w,
            p,
            PointerField::ArrayInner,
            *inner,
        ),
        CastFlag::FEnumProperty =>
            kind matches PropertyType::Enum { container, enum_path } && holds_property(
                w,
                p,
                PointerField::EnumUnderlying,
                *container,
            ) && may_name_object(
                w,
                p,
                PointerField::EnumEnum,
                enum_path,
            ),
        CastFlag::FMapProperty =>
            kind matches PropertyType::MapOf { key_prop, value_prop } && holds_property(
                w,
                p,
                PointerField::MapKey,
                *key_prop,
            ) && holds_property(
                w,
                p,
                PointerField::MapValue,
                *value_prop,
            ),
        CastFlag::FSetProperty => kind matches PropertyType::SetOf { key_prop } && holds_property(
            w,
            p,
            PointerField::SetElement,
            *key_prop,
        ),
        CastFlag::FByteProperty => kind matches PropertyType::Byte { enum_path } && may_name_object(
            w,
            p,
            PointerField::ByteEnum,
            enum_path,
        ),
        CastFlag::FClassProperty =>
            kind matches PropertyType::Class { property_class, meta_class } && names_object(
                w,
                p,
                PointerField::ClassPropertyClass,
                property_class,
            ) && names_object(
                w,
                p,
                PointerField::ClassMetaClass,
                meta_class,
            ),
        CastFlag::FObjectProperty =>
            kind matches PropertyType::Object { property_class } && names_object(
                w,
                p,
                PointerField::ObjectPropertyClass,
                property_class,
            ),
        CastFlag::FSoftClassProperty =>
            kind matches PropertyType::SoftClass { property_class, meta_class } && names_object(
                w,
                p,
                PointerField::SoftClassPropertyClass,
                property_class,
            ) && names_object(
                w,
                p,
                PointerField::SoftClassMetaClass,
                meta_class,
            ),
        CastFlag::FSoftObjectProperty =>
            kind matches PropertyType::SoftObject { property_class } && names_object(
                w,
                p,
                PointerField::SoftObjectPropertyClass,
                property_class,
            ),
        CastFlag::FWeakObjectProperty =>
            kind matches PropertyType::WeakObject { property_class } && names_object(
                w,
                p,
                PointerField::WeakObjectPropertyClass,
                property_class,
            ),
        CastFlag::FLazyObjectProperty =>
            kind matches PropertyType::LazyObject { property_class } && names_object(
                w,
                p,
                PointerField::LazyObjectPropertyClass,
                property_class,
            ),
        CastFlag::FInterfaceProperty =>
            kind matches PropertyType::Interface { interface_class } && names_object(
                w,
                p,
                PointerField::InterfaceClass,
                interface_class,
            ),
        CastFlag::FOptionalProperty =>
            kind matches PropertyType::Optional { inner } && holds_property(
                w,
                p,
                PointerField::OptionalValue,
                *inner,
            ),
        _ => false,
    }
}

pub(crate) proof fn lemma_names_object(w: World, t: nat, base: u64, field: PointerField)
    requires
        crate::paths::still(w),
    ensures
        target_path(w, t, base, field).0 matches Ok(path) ==> names_object(w, base, field, path),
        optional_target_path(w, t, base, field).0 matches Ok(path) ==> may_name_object(
            w,
            base,
            field,
            path,
        ),
{
    let query = Query::Pointer { base, field };
    if let (Ok(a), t1) = w.pointer(t, query) {
        if let (Ok(path), _) = crate::paths::path_of(w, t1, a) {
            assert(crate::paths::has_path(w, a, path));
        }
    }
}

proof fn lemma_enum_told(w: World, t: nat, p: u64)
    requires
        crate::paths::still(w),
        enum_type(w, t, p).0 is Ok,
    ensures
        type_told(w, p, CastFlag::FEnumProperty, enum_type(w, t, p).0->Ok_0),
{
    let b = inner_property(w, t, p, PointerField::EnumUnderlying);
    lemma_holds_property(w, t, p, PointerField::EnumUnderlying);
    lemma_names_object(w, b.1, p, PointerField::EnumEnum);
}

proof fn lemma_map_told(w: World, t: nat, p: u64)
    requires
        crate::paths::still(w),
        map_type(w, t, p).0 is Ok,
    ensures
        type_told(w, p, CastFlag::FMapProperty, map_type(w, t, p).0->Ok_0),
{
    let b = inner_property(w, t, p, PointerField::MapKey);
    lemma_holds_property(w, t, p, PointerField::MapKey);
    lemma_holds_property(w, w.later(t, b.1), p, PointerField::MapValue);
}

proof fn lemma_class_told(w: World, t: nat, p: u64)
    requires
        crate::paths::still(w),
    ensures
        class_type(w, t, p).0 matches Ok(kind) ==> type_told(w, p, CastFlag::FClassProperty, kind),
        soft_class_type(w, t, p).0 matches Ok(kind) ==> type_told(
            w,
            p,
            CastFlag::FSoftClassProperty,
            kind,
        ),
{
    let a = target_path(w, t, p, PointerField::ClassPropertyClass);
    lemma_names_object(w, t, p, PointerField::ClassPropertyClass);
    lemma_names_object(w, a.1, p, PointerField::ClassMetaClass);
    let b = target_path(w, t, p, PointerField::SoftClassPropertyClass);
    lemma_names_object(w, t, p, PointerField::SoftClassPropertyClass);
    lemma_names_object(w, b.1, p, PointerField::SoftClassMetaClass);
}

#[verifier::rlimit(60)]
#[verifier::spinoff_prover]
proof fn lemma_type_told(w: World, t: nat, p: u64, flag: CastFlag)
    requires
        crate::paths::still(w),
        type_of(w, t, p, flag).0 is Ok,
    ensures
        type_told(w, p, flag, type_of(w, t, p, flag).0->Ok_0),
{
    if path_slot(flag) is Some {
        lemma_names_object(w, t, p, path_slot(flag)->0);
    } else if optional_path_slot(flag) is Some {
        lemma_names_object(w, t, p, optional_path_slot(flag)->0);
    } else if inner_slot(flag) is Some {
        lemma_holds_property(w, t, p, inner_slot(flag)->0);
    } else if flag == CastFlag::FEnumProperty {
        assert(type_of(w, t, p, flag) == enum_type(w, t, p));
        lemma_enum_told(w, t, p);
    } else if flag == CastFlag::FMapProperty {
        assert(type_of(w, t, p, flag) == map_type(w, t, p));
        lemma_map_told(w, t, p);
    } else {
        lemma_class_told(w, t, p);
    }
}

proof fn lemma_holds_property(w: World, t: nat, p: u64, field: PointerField)
    requires
        crate::paths::still(w),
    ensures
        inner_property(w, t, p, field).0 matches Ok(inner) ==> holds_property(w, p, field, inner),
{
    if let (Ok(inner), t1) = w.pointer(t, Query::Pointer { base: p, field }) {
        if let (Ok(property), _) = property_of(w, t1, inner) {
            assert(has_property(w, inner, property));
        }
    }
}

/// In a target that stands still a property is what the target says of it: its name, where its
/// values lie, its flags, and its type by the first kind that its cast flags name.
pub proof fn properties_are_what_is_told(w: World, p: u64, property: Property<Seq<char>>)
    requires
        crate::paths::still(w),
        has_property(w, p, property),
    ensures
        property.address == p,
        w.told_text(p, TextField::FieldName) == Some(property.name),
        w.told_number(p, NumberField::PropertyOffset) matches Some(n) && property.offset
            == n as usize,
        w.told_number(p, NumberField::PropertyArrayDim) matches Some(n) && property.array_dim
            == n as usize,
        w.told_number(p, NumberField::PropertyElementSize) matches Some(n) && property.size
            == n as usize,
        w.told_word(p, WordField::PropertyFlags) == Some(property.flags.bits),
        w.told_cast_flags(Query::FieldCastFlags { base: p }) matches Some(flags) && exists|
            flag: CastFlag,
        |
            #![trigger type_told(w, p, flag, property.kind)]
            is_first(type_order(), flags, flag) && type_told(w, p, flag, property.kind),
{
    let t = choose|t: nat| (#[trigger] property_of(w, t, p)).0 == Ok::<_, ReadError>(property);
    let a = w.text(t, p, TextField::FieldName);
    let b = w.cast_flags(a.1, Query::FieldCastFlags { base: p });
    let f = b.0->Ok_0;
    first_kind_decides_on_type(f);
    let flag = type_flag(f)->0;
    let c = type_of(w, b.1, p, flag);
    lemma_type_told(w, b.1, p, flag);
    let d = property_frame(w, c.1, p, a.0->Ok_0, c.0->Ok_0);
    assert(type_told(w, p, flag, property.kind));
}

/// Whether each field of a target has a flag that names its kind.
pub open spec fn fields_have_kinds(w: World) -> bool {
    forall|t: nat, base: u64|
        #![trigger (w.answers)(t, Query::FieldCastFlags { base })]
        (w.answers)(t, Query::FieldCastFlags { base }) matches Ok(
            crate::session::Reply::CastFlags(f),
        ) ==> type_flag(f) is Some && crate::property_values::value_flag(f) is Some
}

pub(crate) proof fn lemma_target_path_read(w: World, t: nat, base: u64, field: PointerField)
    requires
        crate::session::answers_all(w),
    ensures
        !crate::session::may_be_null(field) ==> crate::session::read_or_ran_out(
            w,
            target_path(w, t, base, field),
        ),
        crate::session::read_or_ran_out(w, optional_target_path(w, t, base, field)),
{
    crate::session::questions_are_answered(w, t, base);
    let query = Query::Pointer { base, field };
    let a = w.pointer(t, query);
    let b = w.optional(t, query);
    assert(crate::session::read_or_ran_out(w, b));
    assert(!crate::session::may_be_null(field) ==> crate::session::read_or_ran_out(w, a));
    if let (Ok(obj), t1) = a {
        crate::paths::paths_can_be_read(w, t1, obj);
    }
    if let (Ok(Some(obj)), t1) = b {
        crate::paths::paths_can_be_read(w, t1, obj);
    }
}

proof fn lemma_inner_read(w: World, t: nat, p: u64, field: PointerField)
    requires
        crate::session::answers_all(w),
        fields_have_kinds(w),
        !crate::session::may_be_null(field),
    ensures
        crate::session::read_or_ran_out(w, inner_property(w, t, p, field)),
    decreases w.limit - t, 0int,
{
    crate::session::questions_are_answered(w, t, p);
    let query = Query::Pointer { base: p, field };
    assert(crate::session::read_or_ran_out(w, w.pointer(t, query)));
    if let (Ok(inner), t1) = w.pointer(t, query) {
        properties_can_be_read(w, t1, inner);
    }
}

#[verifier::spinoff_prover]
#[verifier::rlimit(60)]
proof fn lemma_type_read(w: World, t: nat, p: u64, flag: CastFlag)
    requires
        crate::session::answers_all(w),
        fields_have_kinds(w),
        exists|f: EClassCastFlags| type_flag(f) == Some(flag),
    ensures
        crate::session::read_or_ran_out(w, type_of(w, t, p, flag)),
    decreases w.limit - t, 2int,
{
    if path_slot(flag) is Some {
        lemma_target_path_read(w, t, p, path_slot(flag)->0);
    } else if optional_path_slot(flag) is Some {
        lemma_target_path_read(w, t, p, optional_path_slot(flag)->0);
    } else if inner_slot(flag) is Some {
        lemma_inner_read(w, t, p, inner_slot(flag)->0);
    } else if flag == CastFlag::FEnumProperty {
        assert(type_of(w, t, p, flag) == enum_type(w, t, p));
        lemma_inner_read(w, t, p, PointerField::EnumUnderlying);
        let b = inner_property(w, t, p, PointerField::EnumUnderlying);
        lemma_target_path_read(w, b.1, p, PointerField::EnumEnum);
    } else if flag == CastFlag::FMapProperty {
        assert(type_of(w, t, p, flag) == map_type(w, t, p));
        lemma_inner_read(w, t, p, PointerField::MapKey);
        let b = inner_property(w, t, p, PointerField::MapKey);
        lemma_inner_read(w, w.later(t, b.1), p, PointerField::MapValue);
    } else if flag == CastFlag::FBoolProperty {
        lemma_bool_read(w, t, p);
    } else if flag == CastFlag::FClassProperty {
        lemma_target_path_read(w, t, p, PointerField::ClassPropertyClass);
        let b = target_path(w, t, p, PointerField::ClassPropertyClass);
        lemma_target_path_read(w, b.1, p, PointerField::ClassMetaClass);
    } else if flag == CastFlag::FSoftClassProperty {
        lemma_target_path_read(w, t, p, PointerField::SoftClassPropertyClass);
        let b = target_path(w, t, p, PointerField::SoftClassPropertyClass);
        lemma_target_path_read(w, b.1, p, PointerField::SoftClassMetaClass);
    }
}

proof fn lemma_bool_read(w: World, t: nat, p: u64)
    requires
        crate::session::answers_all(w),
    ensures
        crate::session::read_or_ran_out(w, bool_type(w, t, p)),
{
    let a = w.byte(t, p, ByteField::BoolFieldSize);
    let b = w.byte(a.1, p, ByteField::BoolByteOffset);
    let c = w.byte(b.1, p, ByteField::BoolByteMask);
    let d = w.byte(c.1, p, ByteField::BoolFieldMask);
    crate::session::questions_are_answered(w, t, p);
    crate::session::questions_are_answered(w, a.1, p);
    crate::session::questions_are_answered(w, b.1, p);
    crate::session::questions_are_answered(w, c.1, p);
    assert(crate::session::read_or_ran_out(w, a));
    assert(crate::session::read_or_ran_out(w, b));
    assert(crate::session::read_or_ran_out(w, c));
    assert(crate::session::read_or_ran_out(w, d));
}

proof fn lemma_frame_read(w: World, t: nat, p: u64, name: Seq<char>, kind: PropertyType<Seq<char>>)
    requires
        crate::session::answers_all(w),
    ensures
        crate::session::read_or_ran_out(w, property_frame(w, t, p, name, kind)),
{
    let a = w.number(t, p, NumberField::PropertyOffset);
    let b = w.number(a.1, p, NumberField::PropertyArrayDim);
    let c = w.number(b.1, p, NumberField::PropertyElementSize);
    let d = w.word(c.1, p, WordField::PropertyFlags);
    crate::session::questions_are_answered(w, t, p);
    crate::session::questions_are_answered(w, a.1, p);
    crate::session::questions_are_answered(w, b.1, p);
    crate::session::questions_are_answered(w, c.1, p);
    assert(crate::session::read_or_ran_out(w, a));
    assert(crate::session::read_or_ran_out(w, b));
    assert(crate::session::read_or_ran_out(w, c));
    assert(crate::session::read_or_ran_out(w, d));
}

/// A property of a target that answers all questions is read, whatever its kind, unless no more
/// questions may be asked.
pub proof fn properties_can_be_read(w: World, t: nat, p: u64)
    requires
        crate::session::answers_all(w),
        fields_have_kinds(w),
    ensures
        crate::session::read_or_ran_out(w, property_of(w, t, p)),
    decreases w.limit - t, 0int,
{
    crate::session::questions_are_answered(w, t, p);
    let a = w.text(t, p, TextField::FieldName);
    assert(crate::session::read_or_ran_out(w, a));
    if let (Ok(name), t1) = a {
        crate::session::questions_are_answered(w, t1, p);
        if let (Ok(f), t2) = w.cast_flags(t1, Query::FieldCastFlags { base: p }) {
            let flag = type_flag(f)->0;
            assert(type_flag(f) is Some);
            lemma_type_read(w, t2, p, flag);
            let c = type_of(w, t2, p, flag);
            if let (Ok(kind), t3) = c {
                lemma_frame_read(w, t3, p, name, kind);
            }
        }
    }
}

} // verus!
