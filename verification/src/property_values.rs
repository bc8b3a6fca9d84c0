//! The values of properties, and the objects and enums that they lead to.

use vstd::prelude::*;

use crate::config::older;
use crate::mem::Ptr;
use crate::model::{
    BytePropertyValue, CastFlag, ECppForm, EClassCastFlags, EEnumFlags, Enum, EnumPropertyValue,
    EnumView, Object, ObjectView, PropertyValue, ValueView,
};
use crate::objects::{UClass, UEnum, UObject, UStruct, ZProperty};
use crate::pathmap::PathMap;
use crate::paths::{opt_path, HasPath};
use crate::pod::{Float32, Float64, Pod, PodError};
use crate::property_types::read_optional_target_path;
use crate::session::{
    Breach, ByteField, Engine, NumberField, PointerField, Query, ReadError, Session, TextField,
    WordField, World,
};
use crate::values::{put_item, put_pair, FieldMap};

verus! {

broadcast use crate::session::group_traces;

/// The flag that decides how the value of a property is read: the first of those below that the
/// property has.
pub open spec fn value_flag(f: EClassCastFlags) -> Option<CastFlag> {
    if f.has(CastFlag::FStructProperty) {
        Some(CastFlag::FStructProperty)
    } else if f.has(CastFlag::FStrProperty) {
        Some(CastFlag::FStrProperty)
    } else if f.has(CastFlag::FNameProperty) {
        Some(CastFlag::FNameProperty)
    } else if f.has(CastFlag::FTextProperty) {
        Some(CastFlag::FTextProperty)
    } else if f.has(CastFlag::FMulticastInlineDelegateProperty) {
        Some(CastFlag::FMulticastInlineDelegateProperty)
    } else if f.has(CastFlag::FMulticastSparseDelegateProperty) {
        Some(CastFlag::FMulticastSparseDelegateProperty)
    } else if f.has(CastFlag::FMulticastDelegateProperty) {
        Some(CastFlag::FMulticastDelegateProperty)
    } else if f.has(CastFlag::FDelegateProperty) {
        Some(CastFlag::FDelegateProperty)
    } else if f.has(CastFlag::FBoolProperty) {
        Some(CastFlag::FBoolProperty)
    } else if f.has(CastFlag::FArrayProperty) {
        Some(CastFlag::FArrayProperty)
    } else if f.has(CastFlag::FEnumProperty) {
        Some(CastFlag::FEnumProperty)
    } else if f.has(CastFlag::FMapProperty) {
        Some(CastFlag::FMapProperty)
    } else if f.has(CastFlag::FSetProperty) {
        Some(CastFlag::FSetProperty)
    } else if f.has(CastFlag::FFloatProperty) {
        Some(CastFlag::FFloatProperty)
    } else if f.has(CastFlag::FDoubleProperty) {
        Some(CastFlag::FDoubleProperty)
    } else if f.has(CastFlag::FByteProperty) {
        Some(CastFlag::FByteProperty)
    } else if f.has(CastFlag::FUInt16Property) {
        Some(CastFlag::FUInt16Property)
    } else if f.has(CastFlag::FUInt32Property) {
        Some(CastFlag::FUInt32Property)
    } else if f.has(CastFlag::FUInt64Property) {
        Some(CastFlag::FUInt64Property)
    } else if f.has(CastFlag::FInt8Property) {
        Some(CastFlag::FInt8Property)
    } else if f.has(CastFlag::FInt16Property) {
        Some(CastFlag::FInt16Property)
    } else if f.has(CastFlag::FIntProperty) {
        Some(CastFlag::FIntProperty)
    } else if f.has(CastFlag::FInt64Property) {
        Some(CastFlag::FInt64Property)
    } else if f.has(CastFlag::FObjectProperty) {
        Some(CastFlag::FObjectProperty)
    } else if f.has(CastFlag::FWeakObjectProperty) {
        Some(CastFlag::FWeakObjectProperty)
    } else if f.has(CastFlag::FSoftObjectProperty) {
        Some(CastFlag::FSoftObjectProperty)
    } else if f.has(CastFlag::FLazyObjectProperty) {
        Some(CastFlag::FLazyObjectProperty)
    } else if f.has(CastFlag::FInterfaceProperty) {
        Some(CastFlag::FInterfaceProperty)
    } else if f.has(CastFlag::FFieldPathProperty) {
        Some(CastFlag::FFieldPathProperty)
    } else if f.has(CastFlag::FOptionalProperty) {
        Some(CastFlag::FOptionalProperty)
    } else if f.has(CastFlag::FUtf8StrProperty) {
        Some(CastFlag::FUtf8StrProperty)
    } else if f.has(CastFlag::FAnsiStrProperty) {
        Some(CastFlag::FAnsiStrProperty)
    } else {
        None
    }
}

/// Picks the flag that decides how the value of a property is read.
pub fn pick_value_flag(f: &EClassCastFlags) -> (r: Option<CastFlag>)
    ensures
        r == value_flag(*f),
{
    if f.contains(CastFlag::FStructProperty) {
        Some(CastFlag::FStructProperty)
    } else if f.contains(CastFlag::FStrProperty) {
        Some(CastFlag::FStrProperty)
    } else if f.contains(CastFlag::FNameProperty) {
        Some(CastFlag::FNameProperty)
    } else if f.contains(CastFlag::FTextProperty) {
        Some(CastFlag::FTextProperty)
    } else if f.contains(CastFlag::FMulticastInlineDelegateProperty) {
        Some(CastFlag::FMulticastInlineDelegateProperty)
    } else if f.contains(CastFlag::FMulticastSparseDelegateProperty) {
        Some(CastFlag::FMulticastSparseDelegateProperty)
    } else if f.contains(CastFlag::FMulticastDelegateProperty) {
        Some(CastFlag::FMulticastDelegateProperty)
    } else if f.contains(CastFlag::FDelegateProperty) {
        Some(CastFlag::FDelegateProperty)
    } else if f.contains(CastFlag::FBoolProperty) {
        Some(CastFlag::FBoolProperty)
    } else if f.contains(CastFlag::FArrayProperty) {
        Some(CastFlag::FArrayProperty)
    } else if f.contains(CastFlag::FEnumProperty) {
        Some(CastFlag::FEnumProperty)
    } else if f.contains(CastFlag::FMapProperty) {
        Some(CastFlag::FMapProperty)
    } else if f.contains(CastFlag::FSetProperty) {
        Some(CastFlag::FSetProperty)
    } else if f.contains(CastFlag::FFloatProperty) {
        Some(CastFlag::FFloatProperty)
    } else if f.contains(CastFlag::FDoubleProperty) {
        Some(CastFlag::FDoubleProperty)
    } else if f.contains(CastFlag::FByteProperty) {
        Some(CastFlag::FByteProperty)
    } else if f.contains(CastFlag::FUInt16Property) {
        Some(CastFlag::FUInt16Property)
    } else if f.contains(CastFlag::FUInt32Property) {
        Some(CastFlag::FUInt32Property)
    } else if f.contains(CastFlag::FUInt64Property) {
        Some(CastFlag::FUInt64Property)
    } else if f.contains(CastFlag::FInt8Property) {
        Some(CastFlag::FInt8Property)
    } else if f.contains(CastFlag::FInt16Property) {
        Some(CastFlag::FInt16Property)
    } else if f.contains(CastFlag::FIntProperty) {
        Some(CastFlag::FIntProperty)
    } else if f.contains(CastFlag::FInt64Property) {
        Some(CastFlag::FInt64Property)
    } else if f.contains(CastFlag::FObjectProperty) {
        Some(CastFlag::FObjectProperty)
    } else if f.contains(CastFlag::FWeakObjectProperty) {
        Some(CastFlag::FWeakObjectProperty)
    } else if f.contains(CastFlag::FSoftObjectProperty) {
        Some(CastFlag::FSoftObjectProperty)
    } else if f.contains(CastFlag::FLazyObjectProperty) {
        Some(CastFlag::FLazyObjectProperty)
    } else if f.contains(CastFlag::FInterfaceProperty) {
        Some(CastFlag::FInterfaceProperty)
    } else if f.contains(CastFlag::FFieldPathProperty) {
        Some(CastFlag::FFieldPathProperty)
    } else if f.contains(CastFlag::FOptionalProperty) {
        Some(CastFlag::FOptionalProperty)
    } else if f.contains(CastFlag::FUtf8StrProperty) {
        Some(CastFlag::FUtf8StrProperty)
    } else if f.contains(CastFlag::FAnsiStrProperty) {
        Some(CastFlag::FAnsiStrProperty)
    } else {
        None
    }
}

/// Whether properties of that kind have no value in a dump.
pub open spec fn no_value(kind: CastFlag) -> bool {
    match kind {
        CastFlag::FTextProperty => true,
        CastFlag::FMulticastInlineDelegateProperty => true,
        CastFlag::FMulticastSparseDelegateProperty => true,
        CastFlag::FMulticastDelegateProperty => true,
        CastFlag::FDelegateProperty => true,
        CastFlag::FWeakObjectProperty => true,
        CastFlag::FSoftObjectProperty => true,
        CastFlag::FLazyObjectProperty => true,
        CastFlag::FInterfaceProperty => true,
        CastFlag::FFieldPathProperty => true,
        CastFlag::FOptionalProperty => true,
        _ => false,
    }
}

fn has_no_value(kind: CastFlag) -> (r: bool)
    ensures
        r == no_value(kind),
{
    match kind {
        CastFlag::FTextProperty => true,
        CastFlag::FMulticastInlineDelegateProperty => true,
        CastFlag::FMulticastSparseDelegateProperty => true,
        CastFlag::FMulticastDelegateProperty => true,
        CastFlag::FDelegateProperty => true,
        CastFlag::FWeakObjectProperty => true,
        CastFlag::FSoftObjectProperty => true,
        CastFlag::FLazyObjectProperty => true,
        CastFlag::FInterfaceProperty => true,
        CastFlag::FFieldPathProperty => true,
        CastFlag::FOptionalProperty => true,
        _ => false,
    }
}

/// The number that a value stands for where it is an integer. Numbers of 64 bits without a sign
/// wrap.
pub open spec fn integer_in(v: ValueView) -> Option<i64> {
    match v {
        ValueView::Byte(BytePropertyValue::Value(n)) => Some(n as i64),
        ValueView::Int8(n) => Some(n as i64),
        ValueView::Int16(n) => Some(n as i64),
        ValueView::Int(n) => Some(n as i64),
        ValueView::Int64(n) => Some(n),
        ValueView::UInt16(n) => Some(n as i64),
        ValueView::UInt32(n) => Some(n as i64),
        ValueView::UInt64(n) => Some(n as i64),
        _ => None,
    }
}

fn take_integer(v: &PropertyValue) -> (r: Option<i64>)
    ensures
        r == integer_in(v.deep_view()),
{
    match v {
        PropertyValue::Byte(BytePropertyValue::Value(n)) => Some(*n as i64),
        PropertyValue::Int8(n) => Some(*n as i64),
        PropertyValue::Int16(n) => Some(*n as i64),
        PropertyValue::Int(n) => Some(*n as i64),
        PropertyValue::Int64(n) => Some(*n),
        PropertyValue::UInt16(n) => Some(*n as i64),
        PropertyValue::UInt32(n) => Some(*n as i64),
        PropertyValue::UInt64(n) => Some(*n as i64),
        _ => None,
    }
}

/// The first name that stands for `value`.
pub open spec fn name_of(names: Seq<(Seq<char>, i64)>, value: i64) -> Option<Seq<char>>
    decreases names.len(),
{
    if names.len() == 0 {
        None
    } else if names[0].1 == value {
        Some(names[0].0)
    } else {
        name_of(names.skip(1), value)
    }
}

fn find_name(names: &Vec<(String, i64)>, value: i64) -> (r: Option<String>)
    ensures
        r.deep_view() == name_of(names.deep_view(), value),
{
    let ghost all = names.deep_view();
    assert(all.skip(0) =~= all);
    let mut i: usize = 0;
    while i < names.len()
        invariant
            i <= names@.len(),
            all == names.deep_view(),
            name_of(all, value) == name_of(all.skip(i as int), value),
        decreases names@.len() - i,
    {
        assert(all[i as int] == (names@[i as int].0@, names@[i as int].1));
        assert(all.skip(i as int).skip(1) =~= all.skip(i + 1));
        if names[i].1 == value {
            return Some(names[i].0.clone());
        }
        i = i + 1;
    }
    None
}

/// The place of a value: `index` times `size` bytes behind what lies `offset` bytes behind
/// `base`, where that is an address.
pub open spec fn value_place(base: u64, offset: usize, index: usize, size: usize) -> Option<u64> {
    let distance = offset + index * size;
    if distance <= usize::MAX && base + distance <= u64::MAX {
        Some((base + distance) as u64)
    } else {
        None
    }
}

fn place_value(base: &Ptr<()>, offset: usize, index: usize, size: usize) -> (r: Option<Ptr<()>>)
    ensures
        r.deep_view() == value_place(base.addr(), offset, index, size),
{
    proof {
        assert(index * size >= 0) by (nonlinear_arith);
    }
    match index.checked_mul(size) {
        Some(skipped) => match offset.checked_add(skipped) {
            Some(distance) => if base.address() <= u64::MAX - distance as u64 {
                Some(base.byte_offset(distance))
            } else {
                None
            },
            None => None,
        },
        None => None,
    }
}

/// The truth value at `p`: whether a bit of the mask is set in its byte.
pub open spec fn bool_value(w: World, t: nat, prop: u64, p: u64) -> (
    Result<Option<ValueView>, ReadError>,
    nat,
) {
    match w.byte(t, prop, ByteField::BoolByteOffset) {
        (Ok(offset), t1) => match w.byte(t1, prop, ByteField::BoolByteMask) {
            (Ok(mask), t2) => if p + offset > u64::MAX {
                (Err(ReadError::Broken(Breach::AddressOverflow)), t2)
            } else {
                match w.value::<u8>(t2, (p + offset) as u64) {
                    (Ok(byte), t3) => (Ok(Some(ValueView::Bool(byte & mask != 0))), t3),
                    (Err(e), t3) => (Err(e), t3),
                }
            },
            (Err(e), t2) => (Err(e), t2),
        },
        (Err(e), t1) => (Err(e), t1),
    }
}

fn read_bool_value<E: Engine>(s: &mut Session<E>, prop: &Ptr<ZProperty>, ptr: &Ptr<()>) -> (r:
    Result<Option<PropertyValue>, ReadError>)
    ensures
        final(s).trace().extends(old(s).trace()),
        forall|w: World| #[trigger]
            w.explains(final(s).trace()) ==> bool_value(w, old(s).now(), prop.addr(), ptr.addr())
                == (crate::session::outcome(r), final(s).now()),
{
    let offset: u8 = match s.byte(prop.address(), ByteField::BoolByteOffset) {
        Ok(b) => b,
        Err(e) => {
            return Err(e);
        },
    };
    let mask: u8 = match s.byte(prop.address(), ByteField::BoolByteMask) {
        Ok(b) => b,
        Err(e) => {
            return Err(e);
        },
    };
    if ptr.address() > u64::MAX - offset as u64 {
        return Err(ReadError::Broken(Breach::AddressOverflow));
    }
    match s.value::<u8>(ptr.address() + offset as u64) {
        Ok(byte) => Ok(Some(PropertyValue::Bool(byte & mask != 0))),
        Err(e) => Err(e),
    }
}

/// The text at `p`.
pub open spec fn text_value(w: World, t: nat, p: u64, kind: CastFlag) -> (
    Result<Option<ValueView>, ReadError>,
    nat,
) {
    let field = match kind {
        CastFlag::FStrProperty => TextField::StringValue,
        CastFlag::FNameProperty => TextField::NameValue,
        _ => TextField::Utf8StringValue,
    };
    match w.text(t, p, field) {
        (Ok(text), t1) => (
            Ok(
                Some(
                    match kind {
                        CastFlag::FStrProperty => ValueView::Str(text),
                        CastFlag::FNameProperty => ValueView::Name(text),
                        _ => ValueView::Utf8Str(text),
                    },
                ),
            ),
            t1,
        ),
        (Err(e), t1) => (Err(e), t1),
    }
}

fn read_text_value<E: Engine>(s: &mut Session<E>, ptr: &Ptr<()>, kind: CastFlag) -> (r: Result<
    Option<PropertyValue>,
    ReadError,
>)
    ensures
        final(s).trace().extends(old(s).trace()),
        forall|w: World| #[trigger]
            w.explains(final(s).trace()) ==> text_value(w, old(s).now(), ptr.addr(), kind) == (
                crate::session::outcome(r),
                final(s).now(),
            ),
{
    let field = match kind {
        CastFlag::FStrProperty => TextField::StringValue,
        CastFlag::FNameProperty => TextField::NameValue,
        _ => TextField::Utf8StringValue,
    };
    match s.text(ptr.address(), field) {
        Ok(text) => Ok(
            Some(
                match kind {
                    CastFlag::FStrProperty => PropertyValue::Str(text),
                    CastFlag::FNameProperty => PropertyValue::Name(text),
                    _ => PropertyValue::Utf8Str(text),
                },
            ),
        ),
        Err(e) => Err(e),
    }
}

/// The number at `p`.
pub open spec fn number_value(w: World, t: nat, p: u64, kind: CastFlag) -> (
    Result<Option<ValueView>, ReadError>,
    nat,
) {
    match kind {
        CastFlag::FFloatProperty => match w.value::<Float32>(t, p) {
            (Ok(n), t1) => (Ok(Some(ValueView::Float(n))), t1),
            (Err(e), t1) => (Err(e), t1),
        },
        CastFlag::FDoubleProperty => match w.value::<Float64>(t, p) {
            (Ok(n), t1) => (Ok(Some(ValueView::Double(n))), t1),
            (Err(e), t1) => (Err(e), t1),
        },
        CastFlag::FUInt16Property => match w.value::<u16>(t, p) {
            (Ok(n), t1) => (Ok(Some(ValueView::UInt16(n))), t1),
            (Err(e), t1) => (Err(e), t1),
        },
        CastFlag::FUInt32Property => match w.value::<u32>(t, p) {
            (Ok(n), t1) => (Ok(Some(ValueView::UInt32(n))), t1),
            (Err(e), t1) => (Err(e), t1),
        },
        CastFlag::FUInt64Property => match w.value::<u64>(t, p) {
            (Ok(n), t1) => (Ok(Some(ValueView::UInt64(n))), t1),
            (Err(e), t1) => (Err(e), t1),
        },
        CastFlag::FInt8Property => match w.value::<i8>(t, p) {
            (Ok(n), t1) => (Ok(Some(ValueView::Int8(n))), t1),
            (Err(e), t1) => (Err(e), t1),
        },
        CastFlag::FInt16Property => match w.value::<i16>(t, p) {
            (Ok(n), t1) => (Ok(Some(ValueView::Int16(n))), t1),
            (Err(e), t1) => (Err(e), t1),
        },
        CastFlag::FIntProperty => match w.value::<i32>(t, p) {
            (Ok(n), t1) => (Ok(Some(ValueView::Int(n))), t1),
            (Err(e), t1) => (Err(e), t1),
        },
        CastFlag::FInt64Property => match w.value::<i64>(t, p) {
            (Ok(n), t1) => (Ok(Some(ValueView::Int64(n))), t1),
            (Err(e), t1) => (Err(e), t1),
        },
        _ => (Err(ReadError::UnexpectedReply), t),
    }
}

fn read_number_value<E: Engine>(s: &mut Session<E>, ptr: &Ptr<()>, kind: CastFlag) -> (r: Result<
    Option<PropertyValue>,
    ReadError,
>)
    ensures
        final(s).trace().extends(old(s).trace()),
        forall|w: World| #[trigger]
            w.explains(final(s).trace()) ==> number_value(w, old(s).now(), ptr.addr(), kind) == (
                crate::session::outcome(r),
                final(s).now(),
            ),
{
    let p = ptr.address();
    match kind {
        CastFlag::FFloatProperty => match s.value::<Float32>(p) {
            Ok(n) => Ok(Some(PropertyValue::Float(n))),
            Err(e) => Err(e),
        },
        CastFlag::FDoubleProperty => match s.value::<Float64>(p) {
            Ok(n) => Ok(Some(PropertyValue::Double(n))),
            Err(e) => Err(e),
        },
        CastFlag::FUInt16Property => match s.value::<u16>(p) {
            Ok(n) => Ok(Some(PropertyValue::UInt16(n))),
            Err(e) => Err(e),
        },
        CastFlag::FUInt32Property => match s.value::<u32>(p) {
            Ok(n) => Ok(Some(PropertyValue::UInt32(n))),
            Err(e) => Err(e),
        },
        CastFlag::FUInt64Property => match s.value::<u64>(p) {
            Ok(n) => Ok(Some(PropertyValue::UInt64(n))),
            Err(e) => Err(e),
        },
        CastFlag::FInt8Property => match s.value::<i8>(p) {
            Ok(n) => Ok(Some(PropertyValue::Int8(n))),
            Err(e) => Err(e),
        },
        CastFlag::FInt16Property => match s.value::<i16>(p) {
            Ok(n) => Ok(Some(PropertyValue::Int16(n))),
            Err(e) => Err(e),
        },
        CastFlag::FIntProperty => match s.value::<i32>(p) {
            Ok(n) => Ok(Some(PropertyValue::Int(n))),
            Err(e) => Err(e),
        },
        CastFlag::FInt64Property => match s.value::<i64>(p) {
            Ok(n) => Ok(Some(PropertyValue::Int64(n))),
            Err(e) => Err(e),
        },
        _ => Err(ReadError::UnexpectedReply),
    }
}

/// The path of the object whose address lies at `p`.
pub open spec fn object_value(w: World, t: nat, p: u64) -> (
    Result<Option<ValueView>, ReadError>,
    nat,
) {
    match w.value::<u64>(t, p) {
        (Ok(a), t1) => match crate::paths::optional_path_of(
            w,
            t1,
            if a == 0 {
                None
            } else {
                Some(a)
            },
        ) {
            (Ok(path), t2) => (Ok(Some(ValueView::Object(path))), t2),
            (Err(e), t2) => (Err(e), t2),
        },
        (Err(e), t1) => (Err(e), t1),
    }
}

fn read_object_value<E: Engine>(s: &mut Session<E>, ptr: &Ptr<()>) -> (r: Result<
    Option<PropertyValue>,
    ReadError,
>)
    ensures
        final(s).trace().extends(old(s).trace()),
        forall|w: World| #[trigger]
            w.explains(final(s).trace()) ==> object_value(w, old(s).now(), ptr.addr()) == (
                crate::session::outcome(r),
                final(s).now(),
            ),
{
    let address: u64 = match s.value::<u64>(ptr.address()) {
        Ok(a) => a,
        Err(e) => {
            return Err(e);
        },
    };
    let object: Option<Ptr<UObject>> = match Ptr::new(address, ptr.ctx().clone()) {
        Ok(p) => Some(p),
        Err(_) => None,
    };
    match opt_path(s, object) {
        Ok(path) => Ok(Some(PropertyValue::Object(path))),
        Err(e) => Err(e),
    }
}

/// The values at positions `i` to `n` of an array, behind `seen`; nothing where one of them has
/// no value.
pub open spec fn array_items(
    w: World,
    t: nat,
    v: (u16, u16),
    inner: u64,
    data: u64,
    i: usize,
    n: usize,
    seen: Seq<ValueView>,
) -> (Result<Option<ValueView>, ReadError>, nat)
    decreases w.limit - t, 1int, n - i,
{
    if i >= n {
        (Ok(Some(ValueView::Array(seen))), t)
    } else {
        match prop_value(w, t, v, inner, data, i) {
            (Ok(Some(x)), t1) => array_items(
                w,
                w.later(t, t1),
                v,
                inner,
                data,
                (i + 1) as usize,
                n,
                seen.push(x),
            ),
            (Ok(None), t1) => (Ok(None), t1),
            (Err(e), t1) => (Err(e), t1),
        }
    }
}

/// The array at `p`: its number of items stands behind the address of the first.
pub open spec fn array_value(w: World, t: nat, v: (u16, u16), prop: u64, p: u64) -> (
    Result<Option<ValueView>, ReadError>,
    nat,
)
    decreases w.limit - t, 5int, 0int,
{
    if p + 8 > u64::MAX {
        (Err(ReadError::Broken(Breach::AddressOverflow)), t)
    } else {
        match w.value::<u32>(t, (p + 8) as u64) {
            (Ok(n), t1) => match w.value::<u64>(t1, p) {
                (Ok(data), t2) => if data == 0 {
                    (Ok(Some(ValueView::Array(Seq::empty()))), t2)
                } else {
                    match w.pointer(
                        t2,
                        Query::Pointer { base: prop, field: PointerField::ArrayInner },
                    ) {
                        (Ok(inner), t3) => array_items(
                            w,
                            t3,
                            v,
                            inner,
                            data,
                            0,
                            n as usize,
                            Seq::empty(),
                        ),
                        (Err(e), t3) => (Err(e), t3),
                    }
                },
                (Err(e), t2) => (Err(e), t2),
            },
            (Err(e), t1) => (Err(e), t1),
        }
    }
}

/// The enum value at `p`: the name of the underlying number, or that number where it has none.
pub open spec fn enum_value(w: World, t: nat, v: (u16, u16), prop: u64, p: u64) -> (
    Result<Option<ValueView>, ReadError>,
    nat,
)
    decreases w.limit - t, 5int, 0int,
{
    match w.pointer(t, Query::Pointer { base: prop, field: PointerField::EnumUnderlying }) {
        (Ok(underlying), t1) => match prop_value(w, t1, v, underlying, p, 0) {
            (Ok(Some(x)), t2) => match integer_in(x) {
                Some(n) => named_enum_value(w, w.later(t1, t2), v, prop, n),
                None => (Err(ReadError::UnderlyingKind), t2),
            },
            (Ok(None), t2) => (Err(ReadError::Broken(Breach::NoUnderlyingValue)), t2),
            (Err(e), t2) => (Err(e), t2),
        },
        (Err(e), t1) => (Err(e), t1),
    }
}

/// The name of the number `n` in the enum of an enum property, or `n` where it has none.
pub open spec fn named_enum_value(w: World, t: nat, v: (u16, u16), prop: u64, n: i64) -> (
    Result<Option<ValueView>, ReadError>,
    nat,
)
    decreases w.limit - t, 4int, 0int,
{
    match w.optional(t, Query::Pointer { base: prop, field: PointerField::EnumEnum }) {
        (Ok(Some(e)), t1) => match enum_of(w, t1, v, e) {
            (Ok(e), t2) => (
                Ok(
                    Some(
                        ValueView::Enum(
                            match name_of(e.names, n) {
                                Some(name) => EnumPropertyValue::Name(name),
                                None => EnumPropertyValue::Value(n),
                            },
                        ),
                    ),
                ),
                t2,
            ),
            (Err(e), t2) => (Err(e), t2),
        },
        (Ok(None), t1) => (Err(ReadError::Broken(Breach::NoEnum)), t1),
        (Err(e), t1) => (Err(e), t1),
    }
}

/// The byte at `p`: its name in the enum of the property, or the byte where it has none.
pub open spec fn byte_value(w: World, t: nat, v: (u16, u16), prop: u64, p: u64) -> (
    Result<Option<ValueView>, ReadError>,
    nat,
)
    decreases w.limit - t, 5int, 0int,
{
    match w.value::<u8>(t, p) {
        (Ok(n), t1) => match w.optional(
            t1,
            Query::Pointer { base: prop, field: PointerField::ByteEnum },
        ) {
            (Ok(Some(e)), t2) => match enum_of(w, t2, v, e) {
                (Ok(e), t3) => (
                    Ok(
                        Some(
                            ValueView::Byte(
                                match name_of(e.names, n as i64) {
                                    Some(name) => BytePropertyValue::Name(name),
                                    None => BytePropertyValue::Value(n),
                                },
                            ),
                        ),
                    ),
                    t3,
                ),
                (Err(e), t3) => (Err(e), t3),
            },
            (Ok(None), t2) => (Ok(Some(ValueView::Byte(BytePropertyValue::Value(n)))), t2),
            (Err(e), t2) => (Err(e), t2),
        },
        (Err(e), t1) => (Err(e), t1),
    }
}

/// The pairs at positions `i` to `n` of the map at `p`, added to `seen`. A pair counts where both
/// its key and its value have a value.
pub open spec fn map_pairs(
    w: World,
    t: nat,
    v: (u16, u16),
    key_prop: u64,
    value_prop: u64,
    p: u64,
    size: usize,
    i: u64,
    n: i64,
    seen: Seq<(ValueView, ValueView)>,
) -> (Result<Option<ValueView>, ReadError>, nat)
    decreases w.limit - t, 1int, 0int,
{
    if i >= n {
        (Ok(Some(ValueView::MapOf(seen))), t)
    } else {
        match w.flag(t, Query::EntryPresent { base: p, is_map: true, index: i }) {
            (Ok(true), t1) => match w.pointer(
                t1,
                Query::EntryAddress { base: p, is_map: true, index: i, size },
            ) {
                (Ok(pair), t2) => match prop_value(w, t2, v, key_prop, pair, 0) {
                    (Ok(key), t3) => match prop_value(
                        w,
                        w.later(t2, t3),
                        v,
                        value_prop,
                        pair,
                        0,
                    ) {
                        (Ok(value), t4) => map_pairs(
                            w,
                            w.later(t2, t4),
                            v,
                            key_prop,
                            value_prop,
                            p,
                            size,
                            (i + 1) as u64,
                            n,
                            match (key, value) {
                                (Some(k), Some(x)) => crate::values::with_pair(seen, k, x),
                                _ => seen,
                            },
                        ),
                        (Err(e), t4) => (Err(e), t4),
                    },
                    (Err(e), t3) => (Err(e), t3),
                },
                (Err(e), t2) => (Err(e), t2),
            },
            (Ok(false), t1) => map_pairs(
                w,
                t1,
                v,
                key_prop,
                value_prop,
                p,
                size,
                (i + 1) as u64,
                n,
                seen,
            ),
            (Err(e), t1) => (Err(e), t1),
        }
    }
}

/// The map at `p`.
pub open spec fn map_value(w: World, t: nat, v: (u16, u16), prop: u64, p: u64) -> (
    Result<Option<ValueView>, ReadError>,
    nat,
)
    decreases w.limit - t, 5int, 0int,
{
    match w.pointer(t, Query::Pointer { base: prop, field: PointerField::MapKey }) {
        (Ok(key_prop), t1) => match w.pointer(
            t1,
            Query::Pointer { base: prop, field: PointerField::MapValue },
        ) {
            (Ok(value_prop), t2) => match w.number(t2, prop, NumberField::MapEntrySize) {
                (Ok(size), t3) => match w.number(t3, p, NumberField::MapMaxIndex) {
                    (Ok(n), t4) => map_pairs(
                        w,
                        t4,
                        v,
                        key_prop,
                        value_prop,
                        p,
                        size as usize,
                        0,
                        n,
                        Seq::empty(),
                    ),
                    (Err(e), t4) => (Err(e), t4),
                },
                (Err(e), t3) => (Err(e), t3),
            },
            (Err(e), t2) => (Err(e), t2),
        },
        (Err(e), t1) => (Err(e), t1),
    }
}

/// The elements at positions `i` to `n` of the set at `p`, added to `seen`. An element counts
/// where it has a value.
pub open spec fn set_items(
    w: World,
    t: nat,
    v: (u16, u16),
    element_prop: u64,
    p: u64,
    size: usize,
    i: u64,
    n: i64,
    seen: Seq<ValueView>,
) -> (Result<Option<ValueView>, ReadError>, nat)
    decreases w.limit - t, 1int, 0int,
{
    if i >= n {
        (Ok(Some(ValueView::SetOf(seen))), t)
    } else {
        match w.flag(t, Query::EntryPresent { base: p, is_map: false, index: i }) {
            (Ok(true), t1) => match w.pointer(
                t1,
                Query::EntryAddress { base: p, is_map: false, index: i, size },
            ) {
                (Ok(element), t2) => match prop_value(w, t2, v, element_prop, element, 0) {
                    (Ok(value), t3) => set_items(
                        w,
                        w.later(t2, t3),
                        v,
                        element_prop,
                        p,
                        size,
                        (i + 1) as u64,
                        n,
                        match value {
                            Some(x) => crate::values::with_item(seen, x),
                            None => seen,
                        },
                    ),
                    (Err(e), t3) => (Err(e), t3),
                },
                (Err(e), t2) => (Err(e), t2),
            },
            (Ok(false), t1) => set_items(
                w,
                t1,
                v,
                element_prop,
                p,
                size,
                (i + 1) as u64,
                n,
                seen,
            ),
            (Err(e), t1) => (Err(e), t1),
        }
    }
}

/// The set at `p`.
pub open spec fn set_value(w: World, t: nat, v: (u16, u16), prop: u64, p: u64) -> (
    Result<Option<ValueView>, ReadError>,
    nat,
)
    decreases w.limit - t, 5int, 0int,
{
    match w.pointer(t, Query::Pointer { base: prop, field: PointerField::SetElement }) {
        (Ok(element_prop), t1) => match w.number(t1, prop, NumberField::SetEntrySize) {
            (Ok(size), t2) => match w.number(t2, p, NumberField::SetMaxIndex) {
                (Ok(n), t3) => set_items(
                    w,
                    t3,
                    v,
                    element_prop,
                    p,
                    size as usize,
                    0,
                    n,
                    Seq::empty(),
                ),
                (Err(e), t3) => (Err(e), t3),
            },
            (Err(e), t2) => (Err(e), t2),
        },
        (Err(e), t1) => (Err(e), t1),
    }
}

/// What the slots from position `i` to `n` of the map at `p` give: the key and the value of each
/// that has an entry, where both have a value.
pub open spec fn slot_pairs(
    w: World,
    t: nat,
    v: (u16, u16),
    key_prop: u64,
    value_prop: u64,
    p: u64,
    size: usize,
    i: u64,
    n: i64,
) -> Seq<(ValueView, ValueView)>
    decreases w.limit - t,
{
    if i >= n {
        Seq::empty()
    } else {
        match w.flag(t, Query::EntryPresent { base: p, is_map: true, index: i }) {
            (Ok(true), t1) => match w.pointer(
                t1,
                Query::EntryAddress { base: p, is_map: true, index: i, size },
            ) {
                (Ok(pair), t2) => {
                    let (key, t3) = prop_value(w, t2, v, key_prop, pair, 0);
                    let (value, t4) = prop_value(w, w.later(t2, t3), v, value_prop, pair, 0);
                    let rest = slot_pairs(
                        w,
                        w.later(t2, t4),
                        v,
                        key_prop,
                        value_prop,
                        p,
                        size,
                        (i + 1) as u64,
                        n,
                    );
                    match (key, value) {
                        (Ok(Some(k)), Ok(Some(x))) => seq![(k, x)] + rest,
                        _ => rest,
                    }
                },
                (Err(_), _) => Seq::empty(),
            },
            (Ok(false), t1) => slot_pairs(
                w,
                t1,
                v,
                key_prop,
                value_prop,
                p,
                size,
                (i + 1) as u64,
                n,
            ),
            (Err(_), _) => Seq::empty(),
        }
    }
}

/// What the slots from position `i` to `n` of the set at `p` give: the element of each that has
/// an entry, where it has a value.
pub open spec fn slot_elements(
    w: World,
    t: nat,
    v: (u16, u16),
    element_prop: u64,
    p: u64,
    size: usize,
    i: u64,
    n: i64,
) -> Seq<ValueView>
    decreases w.limit - t,
{
    if i >= n {
        Seq::empty()
    } else {
        match w.flag(t, Query::EntryPresent { base: p, is_map: false, index: i }) {
            (Ok(true), t1) => match w.pointer(
                t1,
                Query::EntryAddress { base: p, is_map: false, index: i, size },
            ) {
                (Ok(element), t2) => {
                    let (value, t3) = prop_value(w, t2, v, element_prop, element, 0);
                    let rest = slot_elements(
                        w,
                        w.later(t2, t3),
                        v,
                        element_prop,
                        p,
                        size,
                        (i + 1) as u64,
                        n,
                    );
                    match value {
                        Ok(Some(x)) => seq![x] + rest,
                        _ => rest,
                    }
                },
                (Err(_), _) => Seq::empty(),
            },
            (Ok(false), t1) => slot_elements(w, t1, v, element_prop, p, size, (i + 1) as u64, n),
            (Err(_), _) => Seq::empty(),
        }
    }
}

proof fn lemma_map_pairs(
    w: World,
    t: nat,
    v: (u16, u16),
    key_prop: u64,
    value_prop: u64,
    p: u64,
    size: usize,
    i: u64,
    n: i64,
    seen: Seq<(ValueView, ValueView)>,
)
    ensures
        map_pairs(w, t, v, key_prop, value_prop, p, size, i, n, seen).0 matches Ok(r) ==> r == Some(
            ValueView::MapOf(
                crate::values::with_pairs(
                    seen,
                    slot_pairs(w, t, v, key_prop, value_prop, p, size, i, n),
                ),
            ),
        ),
    decreases w.limit - t,
{
    if i < n {
        match w.flag(t, Query::EntryPresent { base: p, is_map: true, index: i }) {
            (Ok(true), t1) => {
                let query = Query::EntryAddress { base: p, is_map: true, index: i, size };
                if let (Ok(pair), t2) = w.pointer(t1, query) {
                    let (key, t3) = prop_value(w, t2, v, key_prop, pair, 0);
                    let (value, t4) = prop_value(w, w.later(t2, t3), v, value_prop, pair, 0);
                    let t5 = w.later(t2, t4);
                    let next = (i + 1) as u64;
                    let rest = slot_pairs(w, t5, v, key_prop, value_prop, p, size, next, n);
                    match (key, value) {
                        (Ok(Some(k)), Ok(Some(x))) => {
                            let now = crate::values::with_pair(seen, k, x);
                            lemma_map_pairs(
                                w,
                                t5,
                                v,
                                key_prop,
                                value_prop,
                                p,
                                size,
                                next,
                                n,
                                now,
                            );
                            assert((seq![(k, x)] + rest).skip(1) =~= rest);
                        },
                        _ => {
                            lemma_map_pairs(
                                w,
                                t5,
                                v,
                                key_prop,
                                value_prop,
                                p,
                                size,
                                next,
                                n,
                                seen,
                            );
                        },
                    }
                }
            },
            (Ok(false), t1) => {
                lemma_map_pairs(
                    w,
                    t1,
                    v,
                    key_prop,
                    value_prop,
                    p,
                    size,
                    (i + 1) as u64,
                    n,
                    seen,
                );
            },
            (Err(_), _) => {},
        }
    }
}

/// Where a map can be read, it has a value, which holds what the slots with an entry give and
/// nothing else, in the order of the keys; at a key stands what the last slot gives whose key
/// counts as one with it. Slots without an entry, and those whose key or value has no value, are
/// left out.
pub proof fn map_holds_what_its_slots_give(
    w: World,
    t: nat,
    v: (u16, u16),
    key_prop: u64,
    value_prop: u64,
    p: u64,
    size: usize,
    n: i64,
)
    ensures
        ({
            let given = slot_pairs(w, t, v, key_prop, value_prop, p, size, 0, n);
            let held = crate::values::with_pairs(Seq::empty(), given);
            map_pairs(w, t, v, key_prop, value_prop, p, size, 0, n, Seq::empty()).0 matches Ok(r)
                ==> {
                &&& r == Some(ValueView::MapOf(held))
                &&& crate::values::keys_in_order(held)
                &&& forall|q: ValueView| #[trigger]
                    crate::values::value_at(held, q) == crate::values::last_given(given, q)
                &&& forall|k: int|
                    0 <= k < held.len() ==> crate::values::is_given_key(
                        given,
                        (#[trigger] held[k]).0,
                    )
            }
        }),
{
    lemma_map_pairs(w, t, v, key_prop, value_prop, p, size, 0, n, Seq::empty());
    crate::values::map_holds_what_is_put_in(
        slot_pairs(w, t, v, key_prop, value_prop, p, size, 0, n),
    );
}

proof fn lemma_set_items(
    w: World,
    t: nat,
    v: (u16, u16),
    element_prop: u64,
    p: u64,
    size: usize,
    i: u64,
    n: i64,
    seen: Seq<ValueView>,
)
    ensures
        set_items(w, t, v, element_prop, p, size, i, n, seen).0 matches Ok(r) ==> r == Some(
            ValueView::SetOf(
                crate::values::with_items(
                    seen,
                    slot_elements(w, t, v, element_prop, p, size, i, n),
                ),
            ),
        ),
    decreases w.limit - t,
{
    if i < n {
        match w.flag(t, Query::EntryPresent { base: p, is_map: false, index: i }) {
            (Ok(true), t1) => {
                let query = Query::EntryAddress { base: p, is_map: false, index: i, size };
                if let (Ok(element), t2) = w.pointer(t1, query) {
                    let (value, t3) = prop_value(w, t2, v, element_prop, element, 0);
                    let t4 = w.later(t2, t3);
                    let next = (i + 1) as u64;
                    let rest = slot_elements(w, t4, v, element_prop, p, size, next, n);
                    match value {
                        Ok(Some(x)) => {
                            let now = crate::values::with_item(seen, x);
                            lemma_set_items(w, t4, v, element_prop, p, size, next, n, now);
                            assert((seq![x] + rest).skip(1) =~= rest);
                        },
                        _ => {
                            lemma_set_items(w, t4, v, element_prop, p, size, next, n, seen);
                        },
                    }
                }
            },
            (Ok(false), t1) => {
                lemma_set_items(w, t1, v, element_prop, p, size, (i + 1) as u64, n, seen);
            },
            (Err(_), _) => {},
        }
    }
}

/// Where a set can be read, it has a value, which holds what the slots with an entry give and
/// nothing else, in order. Slots without an entry, and those whose element has no value, are left
/// out.
pub proof fn set_holds_what_its_slots_give(
    w: World,
    t: nat,
    v: (u16, u16),
    element_prop: u64,
    p: u64,
    size: usize,
    n: i64,
)
    ensures
        ({
            let given = slot_elements(w, t, v, element_prop, p, size, 0, n);
            let held = crate::values::with_items(Seq::empty(), given);
            set_items(w, t, v, element_prop, p, size, 0, n, Seq::empty()).0 matches Ok(r) ==> {
                &&& r == Some(ValueView::SetOf(held))
                &&& crate::values::items_in_order(held)
                &&& forall|q: ValueView| #[trigger]
                    crate::values::among(q, held) <==> crate::values::among(q, given)
                &&& forall|k: int| 0 <= k < held.len() ==> given.contains(#[trigger] held[k])
            }
        }),
{
    lemma_set_items(w, t, v, element_prop, p, size, 0, n, Seq::empty());
    crate::values::set_holds_what_is_put_in(slot_elements(w, t, v, element_prop, p, size, 0, n));
}

/// The struct at `p`.
pub open spec fn struct_value(w: World, t: nat, v: (u16, u16), prop: u64, p: u64) -> (
    Result<Option<ValueView>, ReadError>,
    nat,
)
    decreases w.limit - t, 5int, 0int,
{
    match w.pointer(t, Query::Pointer { base: prop, field: PointerField::StructPropertyStruct }) {
        (Ok(s), t1) => match fields_of(w, t1, v, s, p, 0, Seq::empty()) {
            (Ok(fields), t2) => (Ok(Some(ValueView::Struct(fields))), t2),
            (Err(e), t2) => (Err(e), t2),
        },
        (Err(e), t1) => (Err(e), t1),
    }
}

/// The value at `p` of a property of that kind.
pub open spec fn kind_value(
    w: World,
    t: nat,
    v: (u16, u16),
    prop: u64,
    p: u64,
    kind: CastFlag,
) -> (Result<Option<ValueView>, ReadError>, nat)
    decreases w.limit - t, 6int, 0int,
{
    if no_value(kind) {
        (Ok(None), t)
    } else {
        match kind {
            CastFlag::FStructProperty => struct_value(w, t, v, prop, p),
            CastFlag::FStrProperty => text_value(w, t, p, kind),
            CastFlag::FNameProperty => text_value(w, t, p, kind),
            CastFlag::FUtf8StrProperty => text_value(w, t, p, kind),
            CastFlag::FAnsiStrProperty => text_value(w, t, p, kind),
            CastFlag::FBoolProperty => bool_value(w, t, prop, p),
            CastFlag::FArrayProperty => array_value(w, t, v, prop, p),
            CastFlag::FEnumProperty => enum_value(w, t, v, prop, p),
            CastFlag::FMapProperty => map_value(w, t, v, prop, p),
            CastFlag::FSetProperty => set_value(w, t, v, prop, p),
            CastFlag::FByteProperty => byte_value(w, t, v, prop, p),
            CastFlag::FObjectProperty => object_value(w, t, p),
            _ => number_value(w, t, p, kind),
        }
    }
}

/// The value at position `index` of the property `prop` of what lies at `base`, for an engine of
/// version `v`; nothing where properties of its kind have no value.
pub open spec fn prop_value(
    w: World,
    t: nat,
    v: (u16, u16),
    prop: u64,
    base: u64,
    index: usize,
) -> (Result<Option<ValueView>, ReadError>, nat)
    decreases w.limit - t, 0int, 0int,
{
    match w.number(t, prop, NumberField::PropertyElementSize) {
        (Ok(size), t1) => match w.number(t1, prop, NumberField::PropertyOffset) {
            (Ok(offset), t2) => match value_place(base, offset as usize, index, size as usize) {
                Some(p) => match w.cast_flags(t2, Query::FieldCastFlags { base: prop }) {
                    (Ok(f), t3) => match value_flag(f) {
                        Some(kind) => kind_value(w, t3, v, prop, p, kind),
                        None => (
                            Err(ReadError::Broken(Breach::UnknownPropertyKind { bits: f.bits })),
                            t3,
                        ),
                    },
                    (Err(e), t3) => (Err(e), t3),
                },
                None => (Err(ReadError::Broken(Breach::AddressOverflow)), t2),
            },
            (Err(e), t2) => (Err(e), t2),
        },
        (Err(e), t1) => (Err(e), t1),
    }
}

/// The values at positions `i` to `n` of a property that is an array, behind `seen`; nothing
/// where one of them has no value. All of them are read in any case.
pub open spec fn dim_items(
    w: World,
    t: nat,
    v: (u16, u16),
    prop: u64,
    base: u64,
    i: usize,
    n: usize,
    seen: Option<Seq<ValueView>>,
) -> (Result<Option<Seq<ValueView>>, ReadError>, nat)
    decreases w.limit - t, 1int, n - i,
{
    if i >= n {
        (Ok(seen), t)
    } else {
        match prop_value(w, t, v, prop, base, i) {
            (Ok(x), t1) => dim_items(
                w,
                w.later(t, t1),
                v,
                prop,
                base,
                (i + 1) as usize,
                n,
                match (seen, x) {
                    (Some(s), Some(x)) => Some(s.push(x)),
                    _ => None,
                },
            ),
            (Err(e), t1) => (Err(e), t1),
        }
    }
}

/// The value of a property as a field: by itself, or as an array where it has another number of
/// dimensions than one.
pub open spec fn field_value(
    w: World,
    t: nat,
    v: (u16, u16),
    prop: u64,
    base: u64,
    dim: usize,
) -> (Result<Option<ValueView>, ReadError>, nat)
    decreases w.limit - t, 2int, 0int,
{
    if dim == 1 {
        prop_value(w, t, v, prop, base, 0)
    } else {
        match dim_items(w, t, v, prop, base, 0, dim, Some(Seq::empty())) {
            (Ok(Some(items)), t1) => (Ok(Some(ValueView::Array(items))), t1),
            (Ok(None), t1) => (Ok(None), t1),
            (Err(e), t1) => (Err(e), t1),
        }
    }
}

/// The fields of what lies at `base`, by the properties of the struct `s` and of its bases from
/// position `index` on, added to `seen`. A field counts where it has a value.
pub open spec fn fields_of(
    w: World,
    t: nat,
    v: (u16, u16),
    s: u64,
    base: u64,
    index: u64,
    seen: Seq<(Seq<char>, ValueView)>,
) -> (Result<Seq<(Seq<char>, ValueView)>, ReadError>, nat)
    decreases w.limit - t, 3int, 0int,
{
    match w.optional(t, Query::StructProperty { base: s, inherited: true, index }) {
        (Ok(Some(prop)), t1) => match w.number(t1, prop, NumberField::PropertyArrayDim) {
            (Ok(dim), t2) => match w.text(t2, prop, TextField::FieldName) {
                (Ok(name), t3) => match field_value(w, t3, v, prop, base, dim as usize) {
                    (Ok(value), t4) => fields_of(
                        w,
                        w.later(t3, t4),
                        v,
                        s,
                        base,
                        (index + 1) as u64,
                        match value {
                            Some(x) => crate::values::with_field(seen, name, x),
                            None => seen,
                        },
                    ),
                    (Err(e), t4) => (Err(e), t4),
                },
                (Err(e), t3) => (Err(e), t3),
            },
            (Err(e), t2) => (Err(e), t2),
        },
        (Ok(None), t1) => (Ok(seen), t1),
        (Err(e), t1) => (Err(e), t1),
    }
}

/// The values of the properties of an object, by its class.
pub open spec fn object_fields(
    w: World,
    t: nat,
    v: (u16, u16),
    obj: u64,
    class: u64,
    outer: Option<Seq<char>>,
    class_path: Seq<char>,
) -> (Result<ObjectView, ReadError>, nat)
    decreases w.limit - t, 4int, 0int,
{
    match w.word(t, obj, WordField::ObjectVtable) {
        (Ok(vtable), t1) => match w.object_flags(t1, obj) {
            (Ok(object_flags), t2) => match fields_of(w, t2, v, class, obj, 0, Seq::empty()) {
                (Ok(property_values), t3) => (
                    Ok(
                        ObjectView {
                            address: obj,
                            vtable,
                            object_flags,
                            outer,
                            class: class_path,
                            children: Set::empty(),
                            property_values,
                        },
                    ),
                    t3,
                ),
                (Err(e), t3) => (Err(e), t3),
            },
            (Err(e), t2) => (Err(e), t2),
        },
        (Err(e), t1) => (Err(e), t1),
    }
}

/// An object: what it lies in, its class, its flags and the values of its properties. It has no
/// children yet.
pub open spec fn object_of(w: World, t: nat, v: (u16, u16), obj: u64) -> (
    Result<ObjectView, ReadError>,
    nat,
)
    decreases w.limit - t, 5int, 0int,
{
    match crate::property_types::optional_target_path(w, t, obj, PointerField::ObjectOuter) {
        (Ok(outer), t1) => match w.pointer(
            t1,
            Query::Pointer { base: obj, field: PointerField::ObjectClass },
        ) {
            (Ok(class), t2) => match crate::paths::path_of(w, t2, class) {
                (Ok(class_path), t3) => object_fields(
                    w,
                    w.later(t, t3),
                    v,
                    obj,
                    class,
                    outer,
                    class_path,
                ),
                (Err(e), t3) => (Err(e), t3),
            },
            (Err(e), t2) => (Err(e), t2),
        },
        (Err(e), t1) => (Err(e), t1),
    }
}

/// The flags of an enum. Enums have them since version 4.26.
pub open spec fn enum_flags_of(w: World, t: nat, v: (u16, u16), e: u64) -> (
    Result<Option<EEnumFlags>, ReadError>,
    nat,
) {
    if !crate::config::is_older(v, (4, 26)) {
        match w.byte(t, e, ByteField::EnumFlags) {
            (Ok(bits), t1) => (Ok(Some(EEnumFlags { bits })), t1),
            (Err(e), t1) => (Err(e), t1),
        }
    } else {
        (Ok(None), t)
    }
}

/// What an enum has besides its flags and what every object has.
pub open spec fn enum_rest(
    w: World,
    t: nat,
    e: u64,
    enum_flags: Option<EEnumFlags>,
    object: ObjectView,
) -> (Result<EnumView, ReadError>, nat) {
    match w.text(t, e, TextField::EnumCppType) {
        (Ok(cpp_type), t1) => match w.byte(t1, e, ByteField::EnumCppForm) {
            (Ok(discriminant), t2) => match w.names(t2, e) {
                (Ok(names), t3) => (
                    Ok(
                        EnumView {
                            object,
                            cpp_type,
                            cpp_form: ECppForm { discriminant },
                            enum_flags,
                            names,
                        },
                    ),
                    t3,
                ),
                (Err(e), t3) => (Err(e), t3),
            },
            (Err(e), t2) => (Err(e), t2),
        },
        (Err(e), t1) => (Err(e), t1),
    }
}

/// An enum: what every object has, how it is declared, its flags and its names.
pub open spec fn enum_of(w: World, t: nat, v: (u16, u16), e: u64) -> (
    Result<EnumView, ReadError>,
    nat,
)
    decreases w.limit - t, 6int, 0int,
{
    match enum_flags_of(w, t, v, e) {
        (Ok(enum_flags), t1) => match object_of(w, w.later(t, t1), v, e) {
            (Ok(object), t2) => enum_rest(w, t2, e, enum_flags, object),
            (Err(e), t2) => (Err(e), t2),
        },
        (Err(e), t1) => (Err(e), t1),
    }
}

fn read_array_items<E: Engine>(
    s: &mut Session<E>,
    inner: &Ptr<ZProperty>,
    data: &Ptr<()>,
    n: usize,
) -> (r: Result<Option<PropertyValue>, ReadError>)
    ensures
        final(s).trace().extends(old(s).trace()),
        forall|w: World| #[trigger]
            w.explains(final(s).trace()) ==> array_items(
                w,
                old(s).now(),
                old(s).version(),
                inner.addr(),
                data.addr(),
                0,
                n,
                Seq::empty(),
            ) == (crate::session::outcome(r), final(s).now()),
    decreases old(s).spec_left(), 1int, 0int,
{
    let mut items: Vec<PropertyValue> = Vec::new();
    let mut i: usize = 0;
    let ghost start = s.now();
    let ghost v = old(s).version();
    assert(items.deep_view() =~= Seq::<ValueView>::empty());
    while i < n
        invariant
            i <= n,
            start == old(s).now(),
            v == old(s).version(),
            s.trace().extends(old(s).trace()),
            forall|w: World| #[trigger]
                w.explains(s.trace()) ==> array_items(
                    w,
                    start,
                    v,
                    inner.addr(),
                    data.addr(),
                    0,
                    n,
                    Seq::empty(),
                ) == array_items(
                    w,
                    s.now(),
                    v,
                    inner.addr(),
                    data.addr(),
                    i,
                    n,
                    items.deep_view(),
                ),
        decreases n - i,
    {
        let ghost seen = items.deep_view();
        match read_prop(s, inner, data, i) {
            Ok(Some(x)) => {
                items.push(x);
                assert(items.deep_view() =~= seen.push(x.deep_view()));
            },
            Ok(None) => {
                return Ok(None);
            },
            Err(e) => {
                return Err(e);
            },
        }
        i = i + 1;
    }
    proof {
        crate::model::value_view_of_lists(arbitrary(), arbitrary(), items);
    }
    Ok(Some(PropertyValue::Array(items)))
}

fn read_array_value<E: Engine>(s: &mut Session<E>, prop: &Ptr<ZProperty>, ptr: &Ptr<()>) -> (r:
    Result<Option<PropertyValue>, ReadError>)
    ensures
        final(s).trace().extends(old(s).trace()),
        forall|w: World| #[trigger]
            w.explains(final(s).trace()) ==> array_value(
                w,
                old(s).now(),
                old(s).version(),
                prop.addr(),
                ptr.addr(),
            ) == (crate::session::outcome(r), final(s).now()),
    decreases old(s).spec_left(), 5int, 0int,
{
    if ptr.address() > u64::MAX - 8 {
        return Err(ReadError::Broken(Breach::AddressOverflow));
    }
    let n: u32 = match s.value::<u32>(ptr.address() + 8) {
        Ok(n) => n,
        Err(e) => {
            return Err(e);
        },
    };
    let data: Ptr<()> = match s.value::<u64>(ptr.address()) {
        Ok(a) => match Ptr::new(a, ptr.ctx().clone()) {
            Ok(p) => p,
            Err(_) => {
                let none: Vec<PropertyValue> = Vec::new();
                proof {
                    crate::model::value_view_of_lists(arbitrary(), arbitrary(), none);
                    assert(none.deep_view() =~= Seq::<ValueView>::empty());
                }
                return Ok(Some(PropertyValue::Array(none)));
            },
        },
        Err(e) => {
            return Err(e);
        },
    };
    let query = Query::Pointer { base: prop.address(), field: PointerField::ArrayInner };
    match s.pointer::<ZProperty, ZProperty>(prop, query) {
        Ok(inner) => read_array_items(s, &inner, &data, n as usize),
        Err(e) => Err(e),
    }
}

fn read_enum_value<E: Engine>(s: &mut Session<E>, prop: &Ptr<ZProperty>, ptr: &Ptr<()>) -> (r:
    Result<Option<PropertyValue>, ReadError>)
    ensures
        final(s).trace().extends(old(s).trace()),
        forall|w: World| #[trigger]
            w.explains(final(s).trace()) ==> enum_value(
                w,
                old(s).now(),
                old(s).version(),
                prop.addr(),
                ptr.addr(),
            ) == (crate::session::outcome(r), final(s).now()),
    decreases old(s).spec_left(), 5int, 0int,
{
    let query = Query::Pointer { base: prop.address(), field: PointerField::EnumUnderlying };
    let underlying = match s.pointer::<ZProperty, ZProperty>(prop, query) {
        Ok(p) => p,
        Err(e) => {
            return Err(e);
        },
    };
    match read_prop(s, &underlying, ptr, 0) {
        Ok(Some(x)) => match take_integer(&x) {
            Some(n) => read_named_enum_value(s, prop, n),
            None => Err(ReadError::UnderlyingKind),
        },
        Ok(None) => Err(ReadError::Broken(Breach::NoUnderlyingValue)),
        Err(e) => Err(e),
    }
}

fn read_named_enum_value<E: Engine>(s: &mut Session<E>, prop: &Ptr<ZProperty>, n: i64) -> (r:
    Result<Option<PropertyValue>, ReadError>)
    ensures
        final(s).trace().extends(old(s).trace()),
        forall|w: World| #[trigger]
            w.explains(final(s).trace()) ==> named_enum_value(
                w,
                old(s).now(),
                old(s).version(),
                prop.addr(),
                n,
            ) == (crate::session::outcome(r), final(s).now()),
    decreases old(s).spec_left(), 4int, 0int,
{
    let query = Query::Pointer { base: prop.address(), field: PointerField::EnumEnum };
    let e = match s.optional::<ZProperty, UEnum>(prop, query) {
        Ok(Some(e)) => e,
        Ok(None) => {
            return Err(ReadError::Broken(Breach::NoEnum));
        },
        Err(e) => {
            return Err(e);
        },
    };
    match read_enum(s, &e) {
        Ok(e) => Ok(
            Some(
                PropertyValue::Enum(
                    match find_name(&e.names, n) {
                        Some(name) => EnumPropertyValue::Name(name),
                        None => EnumPropertyValue::Value(n),
                    },
                ),
            ),
        ),
        Err(e) => Err(e),
    }
}

fn read_byte_value<E: Engine>(s: &mut Session<E>, prop: &Ptr<ZProperty>, ptr: &Ptr<()>) -> (r:
    Result<Option<PropertyValue>, ReadError>)
    ensures
        final(s).trace().extends(old(s).trace()),
        forall|w: World| #[trigger]
            w.explains(final(s).trace()) ==> byte_value(
                w,
                old(s).now(),
                old(s).version(),
                prop.addr(),
                ptr.addr(),
            ) == (crate::session::outcome(r), final(s).now()),
    decreases old(s).spec_left(), 5int, 0int,
{
    let n: u8 = match s.value::<u8>(ptr.address()) {
        Ok(n) => n,
        Err(e) => {
            return Err(e);
        },
    };
    let query = Query::Pointer { base: prop.address(), field: PointerField::ByteEnum };
    let e = match s.optional::<ZProperty, UEnum>(prop, query) {
        Ok(Some(e)) => e,
        Ok(None) => {
            return Ok(Some(PropertyValue::Byte(BytePropertyValue::Value(n))));
        },
        Err(e) => {
            return Err(e);
        },
    };
    match read_enum(s, &e) {
        Ok(e) => Ok(
            Some(
                PropertyValue::Byte(
                    match find_name(&e.names, n as i64) {
                        Some(name) => BytePropertyValue::Name(name),
                        None => BytePropertyValue::Value(n),
                    },
                ),
            ),
        ),
        Err(e) => Err(e),
    }
}

fn read_map_pairs<E: Engine>(
    s: &mut Session<E>,
    key_prop: &Ptr<ZProperty>,
    value_prop: &Ptr<ZProperty>,
    ptr: &Ptr<()>,
    size: usize,
    n: i64,
) -> (r: Result<Option<PropertyValue>, ReadError>)
    ensures
        final(s).trace().extends(old(s).trace()),
        forall|w: World| #[trigger]
            w.explains(final(s).trace()) ==> map_pairs(
                w,
                old(s).now(),
                old(s).version(),
                key_prop.addr(),
                value_prop.addr(),
                ptr.addr(),
                size,
                0,
                n,
                Seq::empty(),
            ) == (crate::session::outcome(r), final(s).now()),
    decreases old(s).spec_left(), 1int, 0int,
{
    let mut pairs: Vec<(PropertyValue, PropertyValue)> = Vec::new();
    let mut i: u64 = 0;
    let ghost start = s.now();
    let ghost v = old(s).version();
    assert(pairs.deep_view() =~= Seq::<(ValueView, ValueView)>::empty());
    while n > 0 && i < n as u64
        invariant
            start == old(s).now(),
            v == old(s).version(),
            s.trace().extends(old(s).trace()),
            forall|w: World| #[trigger]
                w.explains(s.trace()) ==> map_pairs(
                    w,
                    start,
                    v,
                    key_prop.addr(),
                    value_prop.addr(),
                    ptr.addr(),
                    size,
                    0,
                    n,
                    Seq::empty(),
                ) == map_pairs(
                    w,
                    s.now(),
                    v,
                    key_prop.addr(),
                    value_prop.addr(),
                    ptr.addr(),
                    size,
                    i,
                    n,
                    pairs.deep_view(),
                ),
        decreases n - i,
    {
        match s.flag(Query::EntryPresent { base: ptr.address(), is_map: true, index: i }) {
            Ok(true) => {
                let query = Query::EntryAddress {
                    base: ptr.address(),
                    is_map: true,
                    index: i,
                    size,
                };
                let pair = match s.pointer::<(), ()>(ptr, query) {
                    Ok(p) => p,
                    Err(e) => {
                        return Err(e);
                    },
                };
                let key = match read_prop(s, key_prop, &pair, 0) {
                    Ok(k) => k,
                    Err(e) => {
                        return Err(e);
                    },
                };
                let value = match read_prop(s, value_prop, &pair, 0) {
                    Ok(x) => x,
                    Err(e) => {
                        return Err(e);
                    },
                };
                if let (Some(k), Some(x)) = (key, value) {
                    put_pair(&mut pairs, k, x);
                }
            },
            Ok(false) => {},
            Err(e) => {
                return Err(e);
            },
        }
        i = i + 1;
    }
    proof {
        crate::model::value_view_of_lists(arbitrary(), pairs, arbitrary());
    }
    Ok(Some(PropertyValue::MapOf(pairs)))
}

fn read_map_value<E: Engine>(s: &mut Session<E>, prop: &Ptr<ZProperty>, ptr: &Ptr<()>) -> (r:
    Result<Option<PropertyValue>, ReadError>)
    ensures
        final(s).trace().extends(old(s).trace()),
        forall|w: World| #[trigger]
            w.explains(final(s).trace()) ==> map_value(
                w,
                old(s).now(),
                old(s).version(),
                prop.addr(),
                ptr.addr(),
            ) == (crate::session::outcome(r), final(s).now()),
    decreases old(s).spec_left(), 5int, 0int,
{
    let query = Query::Pointer { base: prop.address(), field: PointerField::MapKey };
    let key_prop = match s.pointer::<ZProperty, ZProperty>(prop, query) {
        Ok(p) => p,
        Err(e) => {
            return Err(e);
        },
    };
    let query = Query::Pointer { base: prop.address(), field: PointerField::MapValue };
    let value_prop = match s.pointer::<ZProperty, ZProperty>(prop, query) {
        Ok(p) => p,
        Err(e) => {
            return Err(e);
        },
    };
    let size: i64 = match s.number(prop.address(), NumberField::MapEntrySize) {
        Ok(n) => n,
        Err(e) => {
            return Err(e);
        },
    };
    match s.number(ptr.address(), NumberField::MapMaxIndex) {
        Ok(n) => read_map_pairs(s, &key_prop, &value_prop, ptr, size as usize, n),
        Err(e) => Err(e),
    }
}

fn read_set_items<E: Engine>(
    s: &mut Session<E>,
    element_prop: &Ptr<ZProperty>,
    ptr: &Ptr<()>,
    size: usize,
    n: i64,
) -> (r: Result<Option<PropertyValue>, ReadError>)
    ensures
        final(s).trace().extends(old(s).trace()),
        forall|w: World| #[trigger]
            w.explains(final(s).trace()) ==> set_items(
                w,
                old(s).now(),
                old(s).version(),
                element_prop.addr(),
                ptr.addr(),
                size,
                0,
                n,
                Seq::empty(),
            ) == (crate::session::outcome(r), final(s).now()),
    decreases old(s).spec_left(), 1int, 0int,
{
    let mut items: Vec<PropertyValue> = Vec::new();
    let mut i: u64 = 0;
    let ghost start = s.now();
    let ghost v = old(s).version();
    assert(items.deep_view() =~= Seq::<ValueView>::empty());
    while n > 0 && i < n as u64
        invariant
            start == old(s).now(),
            v == old(s).version(),
            s.trace().extends(old(s).trace()),
            forall|w: World| #[trigger]
                w.explains(s.trace()) ==> set_items(
                    w,
                    start,
                    v,
                    element_prop.addr(),
                    ptr.addr(),
                    size,
                    0,
                    n,
                    Seq::empty(),
                ) == set_items(
                    w,
                    s.now(),
                    v,
                    element_prop.addr(),
                    ptr.addr(),
                    size,
                    i,
                    n,
                    items.deep_view(),
                ),
        decreases n - i,
    {
        match s.flag(Query::EntryPresent { base: ptr.address(), is_map: false, index: i }) {
            Ok(true) => {
                let query = Query::EntryAddress {
                    base: ptr.address(),
                    is_map: false,
                    index: i,
                    size,
                };
                let element = match s.pointer::<(), ()>(ptr, query) {
                    Ok(p) => p,
                    Err(e) => {
                        return Err(e);
                    },
                };
                match read_prop(s, element_prop, &element, 0) {
                    Ok(Some(x)) => {
                        put_item(&mut items, x);
                    },
                    Ok(None) => {},
                    Err(e) => {
                        return Err(e);
                    },
                }
            },
            Ok(false) => {},
            Err(e) => {
                return Err(e);
            },
        }
        i = i + 1;
    }
    proof {
        crate::model::value_view_of_lists(arbitrary(), arbitrary(), items);
    }
    Ok(Some(PropertyValue::SetOf(items)))
}

fn read_set_value<E: Engine>(s: &mut Session<E>, prop: &Ptr<ZProperty>, ptr: &Ptr<()>) -> (r:
    Result<Option<PropertyValue>, ReadError>)
    ensures
        final(s).trace().extends(old(s).trace()),
        forall|w: World| #[trigger]
            w.explains(final(s).trace()) ==> set_value(
                w,
                old(s).now(),
                old(s).version(),
                prop.addr(),
                ptr.addr(),
            ) == (crate::session::outcome(r), final(s).now()),
    decreases old(s).spec_left(), 5int, 0int,
{
    let query = Query::Pointer { base: prop.address(), field: PointerField::SetElement };
    let element_prop = match s.pointer::<ZProperty, ZProperty>(prop, query) {
        Ok(p) => p,
        Err(e) => {
            return Err(e);
        },
    };
    let size: i64 = match s.number(prop.address(), NumberField::SetEntrySize) {
        Ok(n) => n,
        Err(e) => {
            return Err(e);
        },
    };
    match s.number(ptr.address(), NumberField::SetMaxIndex) {
        Ok(n) => read_set_items(s, &element_prop, ptr, size as usize, n),
        Err(e) => Err(e),
    }
}

fn read_struct_value<E: Engine>(s: &mut Session<E>, prop: &Ptr<ZProperty>, ptr: &Ptr<()>) -> (r:
    Result<Option<PropertyValue>, ReadError>)
    ensures
        final(s).trace().extends(old(s).trace()),
        forall|w: World| #[trigger]
            w.explains(final(s).trace()) ==> struct_value(
                w,
                old(s).now(),
                old(s).version(),
                prop.addr(),
                ptr.addr(),
            ) == (crate::session::outcome(r), final(s).now()),
    decreases old(s).spec_left(), 5int, 0int,
{
    let query = Query::Pointer { base: prop.address(), field: PointerField::StructPropertyStruct };
    let ustruct = match s.pointer::<ZProperty, UStruct>(prop, query) {
        Ok(p) => p,
        Err(e) => {
            return Err(e);
        },
    };
    match read_props(s, &ustruct, ptr) {
        Ok(fields) => {
            proof {
                crate::model::value_view_of_lists(fields, arbitrary(), arbitrary());
            }
            Ok(Some(PropertyValue::Struct(fields)))
        },
        Err(e) => Err(e),
    }
}

fn read_kind_value<E: Engine>(
    s: &mut Session<E>,
    prop: &Ptr<ZProperty>,
    ptr: &Ptr<()>,
    kind: CastFlag,
) -> (r: Result<Option<PropertyValue>, ReadError>)
    ensures
        final(s).trace().extends(old(s).trace()),
        forall|w: World| #[trigger]
            w.explains(final(s).trace()) ==> kind_value(
                w,
                old(s).now(),
                old(s).version(),
                prop.addr(),
                ptr.addr(),
                kind,
            ) == (crate::session::outcome(r), final(s).now()),
    decreases old(s).spec_left(), 6int, 0int,
{
    if has_no_value(kind) {
        return Ok(None);
    }
    match kind {
        CastFlag::FStructProperty => read_struct_value(s, prop, ptr),
        CastFlag::FStrProperty => read_text_value(s, ptr, kind),
        CastFlag::FNameProperty => read_text_value(s, ptr, kind),
        CastFlag::FUtf8StrProperty => read_text_value(s, ptr, kind),
        CastFlag::FAnsiStrProperty => read_text_value(s, ptr, kind),
        CastFlag::FBoolProperty => read_bool_value(s, prop, ptr),
        CastFlag::FArrayProperty => read_array_value(s, prop, ptr),
        CastFlag::FEnumProperty => read_enum_value(s, prop, ptr),
        CastFlag::FMapProperty => read_map_value(s, prop, ptr),
        CastFlag::FSetProperty => read_set_value(s, prop, ptr),
        CastFlag::FByteProperty => read_byte_value(s, prop, ptr),
        CastFlag::FObjectProperty => read_object_value(s, ptr),
        _ => read_number_value(s, ptr, kind),
    }
}

/// Reads the value at position `index` of a property of what lies at `ptr`; nothing where
/// properties of its kind have no value.
pub fn read_prop<E: Engine>(
    s: &mut Session<E>,
    prop: &Ptr<ZProperty>,
    ptr: &Ptr<()>,
    index: usize,
) -> (r: Result<Option<PropertyValue>, ReadError>)
    ensures
        final(s).trace().extends(old(s).trace()),
        forall|w: World| #[trigger]
            w.explains(final(s).trace()) ==> prop_value(
                w,
                old(s).now(),
                old(s).version(),
                prop.addr(),
                ptr.addr(),
                index,
            ) == (crate::session::outcome(r), final(s).now()),
    decreases old(s).spec_left(), 0int, 0int,
{
    let size: i64 = match s.number(prop.address(), NumberField::PropertyElementSize) {
        Ok(n) => n,
        Err(e) => {
            return Err(e);
        },
    };
    let offset: i64 = match s.number(prop.address(), NumberField::PropertyOffset) {
        Ok(n) => n,
        Err(e) => {
            return Err(e);
        },
    };
    let ptr = match place_value(ptr, offset as usize, index, size as usize) {
        Some(p) => p,
        None => {
            return Err(ReadError::Broken(Breach::AddressOverflow));
        },
    };
    let f = match s.cast_flags(Query::FieldCastFlags { base: prop.address() }) {
        Ok(f) => f,
        Err(e) => {
            return Err(e);
        },
    };
    match pick_value_flag(&f) {
        Some(kind) => read_kind_value(s, prop, &ptr, kind),
        None => Err(ReadError::Broken(Breach::UnknownPropertyKind { bits: f.bits })),
    }
}

fn read_dim_items<E: Engine>(
    s: &mut Session<E>,
    prop: &Ptr<ZProperty>,
    ptr: &Ptr<()>,
    n: usize,
) -> (r: Result<Option<Vec<PropertyValue>>, ReadError>)
    ensures
        final(s).trace().extends(old(s).trace()),
        forall|w: World| #[trigger]
            w.explains(final(s).trace()) ==> dim_items(
                w,
                old(s).now(),
                old(s).version(),
                prop.addr(),
                ptr.addr(),
                0,
                n,
                Some(Seq::empty()),
            ) == (crate::session::outcome(r), final(s).now()),
    decreases old(s).spec_left(), 1int, 0int,
{
    let mut items: Vec<PropertyValue> = Vec::new();
    let mut success: bool = true;
    let mut i: usize = 0;
    let ghost start = s.now();
    let ghost v = old(s).version();
    assert(items.deep_view() =~= Seq::<ValueView>::empty());
    while i < n
        invariant
            i <= n,
            start == old(s).now(),
            v == old(s).version(),
            s.trace().extends(old(s).trace()),
            forall|w: World| #[trigger]
                w.explains(s.trace()) ==> dim_items(
                    w,
                    start,
                    v,
                    prop.addr(),
                    ptr.addr(),
                    0,
                    n,
                    Some(Seq::empty()),
                ) == dim_items(
                    w,
                    s.now(),
                    v,
                    prop.addr(),
                    ptr.addr(),
                    i,
                    n,
                    if success {
                        Some(items.deep_view())
                    } else {
                        None
                    },
                ),
        decreases n - i,
    {
        let ghost seen = items.deep_view();
        match read_prop(s, prop, ptr, i) {
            Ok(Some(x)) => {
                items.push(x);
                assert(items.deep_view() =~= seen.push(x.deep_view()));
            },
            Ok(None) => {
                success = false;
            },
            Err(e) => {
                return Err(e);
            },
        }
        i = i + 1;
    }
    if success {
        Ok(Some(items))
    } else {
        Ok(None)
    }
}

fn read_field_value<E: Engine>(
    s: &mut Session<E>,
    prop: &Ptr<ZProperty>,
    ptr: &Ptr<()>,
    dim: usize,
) -> (r: Result<Option<PropertyValue>, ReadError>)
    ensures
        final(s).trace().extends(old(s).trace()),
        forall|w: World| #[trigger]
            w.explains(final(s).trace()) ==> field_value(
                w,
                old(s).now(),
                old(s).version(),
                prop.addr(),
                ptr.addr(),
                dim,
            ) == (crate::session::outcome(r), final(s).now()),
    decreases old(s).spec_left(), 2int, 0int,
{
    if dim == 1 {
        read_prop(s, prop, ptr, 0)
    } else {
        match read_dim_items(s, prop, ptr, dim) {
            Ok(Some(items)) => {
                proof {
                    crate::model::value_view_of_lists(arbitrary(), arbitrary(), items);
                }
                Ok(Some(PropertyValue::Array(items)))
            },
            Ok(None) => Ok(None),
            Err(e) => Err(e),
        }
    }
}

/// Reads the values of the properties of a struct and of its bases in what lies at `ptr`.
pub fn read_props<E: Engine>(s: &mut Session<E>, ustruct: &Ptr<UStruct>, ptr: &Ptr<()>) -> (r:
    Result<Vec<(String, PropertyValue)>, ReadError>)
    ensures
        final(s).trace().extends(old(s).trace()),
        forall|w: World| #[trigger]
            w.explains(final(s).trace()) ==> fields_of(
                w,
                old(s).now(),
                old(s).version(),
                ustruct.addr(),
                ptr.addr(),
                0,
                Seq::empty(),
            ) == (crate::session::outcome(r), final(s).now()),
    decreases old(s).spec_left(), 3int, 0int,
{
    let mut fields = FieldMap::new();
    let mut index: u64 = 0;
    let most: u64 = s.left();
    let ghost start = s.now();
    let ghost v = old(s).version();
    loop
        invariant
            index + s.spec_left() <= most,
            start == old(s).now(),
            v == old(s).version(),
            fields.wf(),
            s.trace().extends(old(s).trace()),
            forall|w: World| #[trigger]
                w.explains(s.trace()) ==> fields_of(
                    w,
                    start,
                    v,
                    ustruct.addr(),
                    ptr.addr(),
                    0,
                    Seq::empty(),
                ) == fields_of(
                    w,
                    s.now(),
                    v,
                    ustruct.addr(),
                    ptr.addr(),
                    index,
                    fields.spec_fields(),
                ),
        decreases s.spec_left(),
    {
        let query = Query::StructProperty { base: ustruct.address(), inherited: true, index };
        let prop = match s.optional::<UStruct, ZProperty>(ustruct, query) {
            Ok(Some(p)) => p,
            Ok(None) => {
                return Ok(fields.into_fields());
            },
            Err(e) => {
                return Err(e);
            },
        };
        let dim: i64 = match s.number(prop.address(), NumberField::PropertyArrayDim) {
            Ok(n) => n,
            Err(e) => {
                return Err(e);
            },
        };
        let name = match s.text(prop.address(), TextField::FieldName) {
            Ok(name) => name,
            Err(e) => {
                return Err(e);
            },
        };
        match read_field_value(s, &prop, ptr, dim as usize) {
            Ok(Some(x)) => {
                fields.insert(name, x);
            },
            Ok(None) => {},
            Err(e) => {
                return Err(e);
            },
        }
        index = index + 1;
    }
}

/// Reads an object. It has no children yet.
pub fn read_object<E: Engine>(s: &mut Session<E>, obj: &Ptr<UObject>) -> (r: Result<
    Object,
    ReadError,
>)
    ensures
        final(s).trace().extends(old(s).trace()),
        forall|w: World| #[trigger]
            w.explains(final(s).trace()) ==> object_of(
                w,
                old(s).now(),
                old(s).version(),
                obj.addr(),
            ) == (crate::session::outcome(r), final(s).now()),
    decreases old(s).spec_left(), 5int, 0int,
{
    let outer = match read_optional_target_path(s, obj, PointerField::ObjectOuter) {
        Ok(outer) => outer,
        Err(e) => {
            return Err(e);
        },
    };
    let query = Query::Pointer { base: obj.address(), field: PointerField::ObjectClass };
    let class = match s.pointer::<UObject, UClass>(obj, query) {
        Ok(class) => class,
        Err(e) => {
            return Err(e);
        },
    };
    let class_path = match class.path(s) {
        Ok(path) => path,
        Err(e) => {
            return Err(e);
        },
    };
    let vtable: u64 = match s.word(obj.address(), WordField::ObjectVtable) {
        Ok(n) => n,
        Err(e) => {
            return Err(e);
        },
    };
    let object_flags = match s.object_flags(obj.address()) {
        Ok(f) => f,
        Err(e) => {
            return Err(e);
        },
    };
    match read_props(s, &class.cast(), &obj.cast()) {
        Ok(property_values) => Ok(
            Object {
                address: obj.address(),
                vtable,
                object_flags,
                outer,
                class: class_path,
                children: PathMap::new(),
                property_values,
            },
        ),
        Err(e) => Err(e),
    }
}

/// Reads an enum.
pub fn read_enum<E: Engine>(s: &mut Session<E>, obj: &Ptr<UEnum>) -> (r: Result<Enum, ReadError>)
    ensures
        final(s).trace().extends(old(s).trace()),
        forall|w: World| #[trigger]
            w.explains(final(s).trace()) ==> enum_of(w, old(s).now(), old(s).version(), obj.addr())
                == (crate::session::outcome(r), final(s).now()),
    decreases old(s).spec_left(), 6int, 0int,
{
    let enum_flags = if !older(s.ctx().ue_version(), (4, 26)) {
        match s.byte(obj.address(), ByteField::EnumFlags) {
            Ok(bits) => Some(EEnumFlags { bits }),
            Err(e) => {
                return Err(e);
            },
        }
    } else {
        None
    };
    let object = match read_object(s, &obj.cast()) {
        Ok(object) => object,
        Err(e) => {
            return Err(e);
        },
    };
    let cpp_type = match s.text(obj.address(), TextField::EnumCppType) {
        Ok(text) => text,
        Err(e) => {
            return Err(e);
        },
    };
    let discriminant: u8 = match s.byte(obj.address(), ByteField::EnumCppForm) {
        Ok(b) => b,
        Err(e) => {
            return Err(e);
        },
    };
    match s.names(obj.address()) {
        Ok(names) => Ok(
            Enum { object, cpp_type, cpp_form: ECppForm { discriminant }, enum_flags, names },
        ),
        Err(e) => Err(e),
    }
}

/// Among the fields of a struct or an object no name occurs twice.
pub proof fn field_names_occur_once(
    w: World,
    t: nat,
    v: (u16, u16),
    s: u64,
    base: u64,
    index: u64,
    seen: Seq<(Seq<char>, ValueView)>,
)
    requires
        crate::values::names_once(seen),
    ensures
        fields_of(w, t, v, s, base, index, seen).0 matches Ok(fields)
            ==> crate::values::names_once(fields),
    decreases w.limit - t,
{
    if let (Ok(Some(prop)), t1) = w.optional(
        t,
        Query::StructProperty { base: s, inherited: true, index },
    ) {
        if let (Ok(dim), t2) = w.number(t1, prop, NumberField::PropertyArrayDim) {
            if let (Ok(name), t3) = w.text(t2, prop, TextField::FieldName) {
                if let (Ok(value), t4) = field_value(w, t3, v, prop, base, dim as usize) {
                    let next = w.later(t3, t4);
                    match value {
                        Some(x) => {
                            crate::values::with_field_keeps_names_once(seen, name, x);
                            field_names_occur_once(
                                w,
                                next,
                                v,
                                s,
                                base,
                                (index + 1) as u64,
                                crate::values::with_field(seen, name, x),
                            );
                        },
                        None => {
                            field_names_occur_once(
                                w,
                                next,
                                v,
                                s,
                                base,
                                (index + 1) as u64,
                                seen,
                            );
                        },
                    }
                }
            }
        }
    }
}

/// The keys of a map are in order, so that none occurs twice.
pub proof fn map_keys_are_in_order(
    w: World,
    t: nat,
    v: (u16, u16),
    key_prop: u64,
    value_prop: u64,
    p: u64,
    size: usize,
    i: u64,
    n: i64,
    seen: Seq<(ValueView, ValueView)>,
)
    requires
        crate::values::keys_in_order(seen),
    ensures
        map_pairs(w, t, v, key_prop, value_prop, p, size, i, n, seen).0 matches Ok(
            Some(ValueView::MapOf(pairs)),
        ) ==> crate::values::keys_in_order(pairs),
    decreases w.limit - t,
{
    if i < n {
        match w.flag(t, Query::EntryPresent { base: p, is_map: true, index: i }) {
            (Ok(true), t1) => {
                if let (Ok(pair), t2) = w.pointer(
                    t1,
                    Query::EntryAddress { base: p, is_map: true, index: i, size },
                ) {
                    if let (Ok(key), t3) = prop_value(w, t2, v, key_prop, pair, 0) {
                        if let (Ok(value), t4) = prop_value(
                            w,
                            w.later(t2, t3),
                            v,
                            value_prop,
                            pair,
                            0,
                        ) {
                            let next = match (key, value) {
                                (Some(k), Some(x)) => crate::values::with_pair(seen, k, x),
                                _ => seen,
                            };
                            if let (Some(k), Some(x)) = (key, value) {
                                crate::values::with_pair_keeps_keys_in_order(seen, k, x);
                            }
                            map_keys_are_in_order(
                                w,
                                w.later(t2, t4),
                                v,
                                key_prop,
                                value_prop,
                                p,
                                size,
                                (i + 1) as u64,
                                n,
                                next,
                            );
                        }
                    }
                }
            },
            (Ok(false), t1) => {
                map_keys_are_in_order(
                    w,
                    t1,
                    v,
                    key_prop,
                    value_prop,
                    p,
                    size,
                    (i + 1) as u64,
                    n,
                    seen,
                );
            },
            (Err(_), _) => {},
        }
    }
}

/// The elements of a set are in order, so that none occurs twice.
pub proof fn set_items_are_in_order(
    w: World,
    t: nat,
    v: (u16, u16),
    element_prop: u64,
    p: u64,
    size: usize,
    i: u64,
    n: i64,
    seen: Seq<ValueView>,
)
    requires
        crate::values::items_in_order(seen),
    ensures
        set_items(w, t, v, element_prop, p, size, i, n, seen).0 matches Ok(
            Some(ValueView::SetOf(items)),
        ) ==> crate::values::items_in_order(items),
    decreases w.limit - t,
{
    if i < n {
        match w.flag(t, Query::EntryPresent { base: p, is_map: false, index: i }) {
            (Ok(true), t1) => {
                if let (Ok(element), t2) = w.pointer(
                    t1,
                    Query::EntryAddress { base: p, is_map: false, index: i, size },
                ) {
                    if let (Ok(value), t3) = prop_value(w, t2, v, element_prop, element, 0) {
                        let next = match value {
                            Some(x) => crate::values::with_item(seen, x),
                            None => seen,
                        };
                        if let Some(x) = value {
                            crate::values::with_item_keeps_items_in_order(seen, x);
                        }
                        set_items_are_in_order(
                            w,
                            w.later(t2, t3),
                            v,
                            element_prop,
                            p,
                            size,
                            (i + 1) as u64,
                            n,
                            next,
                        );
                    }
                }
            },
            (Ok(false), t1) => {
                set_items_are_in_order(w, t1, v, element_prop, p, size, (i + 1) as u64, n, seen);
            },
            (Err(_), _) => {},
        }
    }
}

/// The flags that name kinds of properties. Of those that a property has the first decides how its
/// value is read.
pub open spec fn value_order() -> Seq<CastFlag> {
    seq![
        CastFlag::FStructProperty,
        CastFlag::FStrProperty,
        CastFlag::FNameProperty,
        CastFlag::FTextProperty,
        CastFlag::FMulticastInlineDelegateProperty,
        CastFlag::FMulticastSparseDelegateProperty,
        CastFlag::FMulticastDelegateProperty,
        CastFlag::FDelegateProperty,
        CastFlag::FBoolProperty,
        CastFlag::FArrayProperty,
        CastFlag::FEnumProperty,
        CastFlag::FMapProperty,
        CastFlag::FSetProperty,
        CastFlag::FFloatProperty,
        CastFlag::FDoubleProperty,
        CastFlag::FByteProperty,
        CastFlag::FUInt16Property,
        CastFlag::FUInt32Property,
        CastFlag::FUInt64Property,
        CastFlag::FInt8Property,
        CastFlag::FInt16Property,
        CastFlag::FIntProperty,
        CastFlag::FInt64Property,
        CastFlag::FObjectProperty,
        CastFlag::FWeakObjectProperty,
        CastFlag::FSoftObjectProperty,
        CastFlag::FLazyObjectProperty,
        CastFlag::FInterfaceProperty,
        CastFlag::FFieldPathProperty,
        CastFlag::FOptionalProperty,
        CastFlag::FUtf8StrProperty,
        CastFlag::FAnsiStrProperty,
    ]
}

/// A value is read by the first kind that a flag of its property names.
pub proof fn first_kind_decides_on_value(f: EClassCastFlags)
    ensures
        match value_flag(f) {
            Some(flag) => crate::property_types::is_first(value_order(), f.named@, flag),
            None => forall|i: int|
                0 <= i < value_order().len() ==> !f.named@.contains(#[trigger] value_order()[i]),
        },
{
    let order = value_order();
    if let Some(flag) = value_flag(f) {
        let i = choose|i: int| 0 <= i < order.len() && #[trigger] order[i] == flag;
        assert(exists|i: int| 0 <= i < order.len() && #[trigger] order[i] == flag) by {
            assert(order[0] == CastFlag::FStructProperty);
            assert(order[1] == CastFlag::FStrProperty);
            assert(order[2] == CastFlag::FNameProperty);
            assert(order[3] == CastFlag::FTextProperty);
            assert(order[4] == CastFlag::FMulticastInlineDelegateProperty);
            assert(order[5] == CastFlag::FMulticastSparseDelegateProperty);
            assert(order[6] == CastFlag::FMulticastDelegateProperty);
            assert(order[7] == CastFlag::FDelegateProperty);
            assert(order[8] == CastFlag::FBoolProperty);
            assert(order[9] == CastFlag::FArrayProperty);
            assert(order[10] == CastFlag::FEnumProperty);
            assert(order[11] == CastFlag::FMapProperty);
            assert(order[12] == CastFlag::FSetProperty);
            assert(order[13] == CastFlag::FFloatProperty);
            assert(order[14] == CastFlag::FDoubleProperty);
            assert(order[15] == CastFlag::FByteProperty);
            assert(order[16] == CastFlag::FUInt16Property);
            assert(order[17] == CastFlag::FUInt32Property);
            assert(order[18] == CastFlag::FUInt64Property);
            assert(order[19] == CastFlag::FInt8Property);
            assert(order[20] == CastFlag::FInt16Property);
            assert(order[21] == CastFlag::FIntProperty);
            assert(order[22] == CastFlag::FInt64Property);
            assert(order[23] == CastFlag::FObjectProperty);
            assert(order[24] == CastFlag::FWeakObjectProperty);
            assert(order[25] == CastFlag::FSoftObjectProperty);
            assert(order[26] == CastFlag::FLazyObjectProperty);
            assert(order[27] == CastFlag::FInterfaceProperty);
            assert(order[28] == CastFlag::FFieldPathProperty);
            assert(order[29] == CastFlag::FOptionalProperty);
            assert(order[30] == CastFlag::FUtf8StrProperty);
            assert(order[31] == CastFlag::FAnsiStrProperty);
        }
        assert forall|j: int| 0 <= j < i implies !f.named@.contains(#[trigger] order[j]) by {}
    }
}

/// Whether the value at position `index` of a property of what lies at `base` can be read and is
/// that one.
pub open spec fn has_value(
    w: World,
    v: (u16, u16),
    prop: u64,
    base: u64,
    index: usize,
    value: Option<ValueView>,
) -> bool {
    exists|t: nat|
        (#[trigger] prop_value(w, t, v, prop, base, index)).0 == Ok::<_, ReadError>(value)
}

/// Whether the fields of what lies at `base` can be read by the properties of a struct and are
/// those.
pub open spec fn has_fields(
    w: World,
    v: (u16, u16),
    s: u64,
    base: u64,
    fields: Seq<(Seq<char>, ValueView)>,
) -> bool {
    exists|t: nat|
        (#[trigger] fields_of(w, t, v, s, base, 0, Seq::empty())).0 == Ok::<_, ReadError>(fields)
}

/// Whether an object can be read and is that one.
pub open spec fn has_object(w: World, v: (u16, u16), obj: u64, object: ObjectView) -> bool {
    exists|t: nat| (#[trigger] object_of(w, t, v, obj)).0 == Ok::<_, ReadError>(object)
}

/// Whether an enum can be read and is that one.
pub open spec fn has_enum(w: World, v: (u16, u16), e: u64, of: EnumView) -> bool {
    exists|t: nat| (#[trigger] enum_of(w, t, v, e)).0 == Ok::<_, ReadError>(of)
}

/// Whether the memory at `p` holds the bytes of `n`.
pub open spec fn in_memory<T: Pod>(w: World, p: u64, n: T) -> bool {
    w.told_memory(p, T::width()) matches Some(bytes) && bytes.len() == T::width() && T::decode(bytes)
        == Ok::<T, PodError>(n)
}

/// A value lies behind its base by the offset of its property and as many sizes as its position
/// says, wherever that is an address that can be reached by counting bytes.
pub proof fn values_lie_behind_their_base(base: u64, offset: usize, index: usize, size: usize)
    ensures
        match value_place(base, offset, index, size) {
            Some(p) => p == base + offset + index * size,
            None => base + offset + index * size > u64::MAX || offset + index * size > usize::MAX,
        },
        index == 0 && base + offset <= u64::MAX ==> value_place(base, offset, index, size) is Some,
{
    assert(0 * size == 0) by (nonlinear_arith);
}

/// Whether `name` stands for `n` in a list of names, and none before it does.
pub open spec fn is_first_name(names: Seq<(Seq<char>, i64)>, n: i64, name: Seq<char>) -> bool {
    exists|i: int|
        0 <= i < names.len() && #[trigger] names[i] == (name, n) && forall|j: int|
            0 <= j < i ==> (#[trigger] names[j]).1 != n
}

/// Whether no name stands for `n`.
pub open spec fn is_nameless(names: Seq<(Seq<char>, i64)>, n: i64) -> bool {
    forall|i: int| 0 <= i < names.len() ==> (#[trigger] names[i]).1 != n
}

/// A number has the first of its names, and none where there is none.
pub proof fn first_name_counts(names: Seq<(Seq<char>, i64)>, n: i64)
    ensures
        match name_of(names, n) {
            Some(name) => is_first_name(names, n, name),
            None => is_nameless(names, n),
        },
    decreases names.len(),
{
    if names.len() > 0 && names[0].1 != n {
        let rest = names.skip(1);
        first_name_counts(rest, n);
        match name_of(rest, n) {
            Some(name) => {
                let i = choose|i: int|
                    0 <= i < rest.len() && #[trigger] rest[i] == (name, n) && forall|j: int|
                        0 <= j < i ==> (#[trigger] rest[j]).1 != n;
                assert(names[i + 1] == (name, n));
                assert forall|j: int| 0 <= j < i + 1 implies (#[trigger] names[j]).1 != n by {
                    if j > 0 {
                        assert(rest[j - 1] == names[j]);
                    }
                }
            },
            None => {
                assert forall|j: int| 0 <= j < names.len() implies (#[trigger] names[j]).1 != n by {
                    if j > 0 {
                        assert(rest[j - 1] == names[j]);
                    }
                }
            },
        }
    } else if names.len() > 0 {
        assert(names[0] == (names[0].0, n));
    }
}

/// Whether a value is the integer `n`. One of 64 bits without a sign is so by its bits.
pub open spec fn is_integer(value: ValueView, n: i64) -> bool {
    match value {
        ValueView::Byte(BytePropertyValue::Value(k)) => n == k,
        ValueView::Int8(k) => n == k,
        ValueView::Int16(k) => n == k,
        ValueView::Int(k) => n == k,
        ValueView::Int64(k) => n == k,
        ValueView::UInt16(k) => n == k,
        ValueView::UInt32(k) => n == k,
        ValueView::UInt64(k) => n as u64 == k,
        _ => false,
    }
}

/// The integer in a value is the value as a number, and only integers have one.
pub proof fn integers_are_numbers(value: ValueView)
    ensures
        match integer_in(value) {
            Some(n) => is_integer(value, n),
            None => forall|n: i64| !#[trigger] is_integer(value, n),
        },
{
    if let ValueView::UInt64(k) = value {
        assert((k as i64) as u64 == k) by (bit_vector);
    }
}

/// Whether `value` is what the target says of the value at `p` of a property with that deciding
/// flag.
pub open spec fn value_told(
    w: World,
    v: (u16, u16),
    prop: u64,
    p: u64,
    flag: CastFlag,
    value: Option<ValueView>,
) -> bool {
    match flag {
        CastFlag::FTextProperty => value is None,
        CastFlag::FMulticastInlineDelegateProperty => value is None,
        CastFlag::FMulticastSparseDelegateProperty => value is None,
        CastFlag::FMulticastDelegateProperty => value is None,
        CastFlag::FDelegateProperty => value is None,
        CastFlag::FWeakObjectProperty => value is None,
        CastFlag::FSoftObjectProperty => value is None,
        CastFlag::FLazyObjectProperty => value is None,
        CastFlag::FInterfaceProperty => value is None,
        CastFlag::FFieldPathProperty => value is None,
        CastFlag::FOptionalProperty => value is None,
        CastFlag::FFloatProperty =>
            value matches Some(ValueView::Float(n)) && in_memory::<Float32>(w, p, n),
        CastFlag::FDoubleProperty =>
            value matches Some(ValueView::Double(n)) && in_memory::<Float64>(w, p, n),
        CastFlag::FUInt16Property =>
            value matches Some(ValueView::UInt16(n)) && in_memory::<u16>(w, p, n),
        CastFlag::FUInt32Property =>
            value matches Some(ValueView::UInt32(n)) && in_memory::<u32>(w, p, n),
        CastFlag::FUInt64Property =>
            value matches Some(ValueView::UInt64(n)) && in_memory::<u64>(w, p, n),
        CastFlag::FInt8Property =>
            value matches Some(ValueView::Int8(n)) && in_memory::<i8>(w, p, n),
        CastFlag::FInt16Property =>
            value matches Some(ValueView::Int16(n)) && in_memory::<i16>(w, p, n),
        CastFlag::FIntProperty =>
            value matches Some(ValueView::Int(n)) && in_memory::<i32>(w, p, n),
        CastFlag::FInt64Property =>
            value matches Some(ValueView::Int64(n)) && in_memory::<i64>(w, p, n),
        CastFlag::FStrProperty => value matches Some(ValueView::Str(text)) && w.told_text(
            p,
            TextField::StringValue,
        ) == Some(text),
        CastFlag::FNameProperty => value matches Some(ValueView::Name(text)) && w.told_text(
            p,
            TextField::NameValue,
        ) == Some(text),
        CastFlag::FUtf8StrProperty => value matches Some(ValueView::Utf8Str(text)) && w.told_text(
            p,
            TextField::Utf8StringValue,
        ) == Some(text),
        CastFlag::FAnsiStrProperty => value matches Some(ValueView::Utf8Str(text)) && w.told_text(
            p,
            TextField::Utf8StringValue,
        ) == Some(text),
        CastFlag::FBoolProperty => value matches Some(ValueView::Bool(b)) && truth_told(
            w,
            prop,
            p,
            b,
        ),
        CastFlag::FObjectProperty => value matches Some(ValueView::Object(path)) && reference_told(
            w,
            p,
            path,
        ),
        CastFlag::FByteProperty => value matches Some(ValueView::Byte(b)) && byte_told(
            w,
            v,
            prop,
            p,
            b,
        ),
        CastFlag::FEnumProperty => value matches Some(ValueView::Enum(e)) && enum_told(
            w,
            v,
            prop,
            p,
            e,
        ),
        CastFlag::FStructProperty => value matches Some(ValueView::Struct(fields)) && w.told_slot(
            prop,
            PointerField::StructPropertyStruct,
        ) matches Some(s) && s != 0 && has_fields(w, v, s, p, fields),
        CastFlag::FArrayProperty => array_told(w, v, prop, p, value),
        CastFlag::FMapProperty => value matches Some(ValueView::MapOf(pairs)) && map_told(
            w,
            v,
            prop,
            p,
            pairs,
        ),
        CastFlag::FSetProperty => value matches Some(ValueView::SetOf(items)) && set_told(
            w,
            v,
            prop,
            p,
            items,
        ),
        _ => false,
    }
}

/// Whether the byte that a truth value lies in has a bit of its mask just where `b` is true.
pub open spec fn truth_told(w: World, prop: u64, p: u64, b: bool) -> bool {
    match (
        w.told_byte(prop, ByteField::BoolByteOffset),
        w.told_byte(prop, ByteField::BoolByteMask),
    ) {
        (Some(offset), Some(mask)) => w.told_memory((p + offset) as u64, 1) matches Some(bytes) && p
            + offset <= u64::MAX && bytes.len() == 1 && b == (bytes[0] & mask != 0),
        _ => false,
    }
}

/// Whether the object whose address lies at `p` has that path, or there is neither.
pub open spec fn reference_told(w: World, p: u64, path: Option<Seq<char>>) -> bool {
    exists|a: u64| #[trigger]
        in_memory::<u64>(w, p, a) && match path {
            Some(path) => a != 0 && crate::paths::has_path(w, a, path),
            None => a == 0,
        }
}

/// Whether the byte at `p` has that name in the enum of the property, or is that number where it
/// has no name or there is no enum.
pub open spec fn byte_told(
    w: World,
    v: (u16, u16),
    prop: u64,
    p: u64,
    b: BytePropertyValue<Seq<char>>,
) -> bool {
    exists|n: u8| #[trigger]
        in_memory::<u8>(w, p, n) && match w.told_slot(prop, PointerField::ByteEnum) {
            Some(e) => if e == 0 {
                b == BytePropertyValue::<Seq<char>>::Value(n)
            } else {
                w.told_names(e) matches Some(names) && match b {
                    BytePropertyValue::Name(name) => is_first_name(names, n as i64, name),
                    BytePropertyValue::Value(m) => m == n && is_nameless(names, n as i64),
                }
            },
            None => false,
        }
}

/// Whether the number that the underlying property reads at `p` has that name in the enum of the
/// property, or is that number where it has no name.
pub open spec fn enum_told(
    w: World,
    v: (u16, u16),
    prop: u64,
    p: u64,
    value: EnumPropertyValue<Seq<char>>,
) -> bool {
    match (
        w.told_slot(prop, PointerField::EnumUnderlying),
        w.told_slot(prop, PointerField::EnumEnum),
    ) {
        (Some(underlying), Some(e)) => w.told_names(e) matches Some(names) && underlying != 0 && e
            != 0 && exists|x: ValueView, n: i64|
            #![trigger is_integer(x, n)]
            has_value(w, v, underlying, p, 0, Some(x)) && is_integer(x, n) && match value {
                EnumPropertyValue::Name(name) => is_first_name(names, n, name),
                EnumPropertyValue::Value(m) => m == n && is_nameless(names, n),
            },
        _ => false,
    }
}

/// Whether `value` is the array at `p`: as many items as the number behind the address of the first
/// says, each read at its position; none where there is no first; and no value where an item has
/// none.
pub open spec fn array_told(
    w: World,
    v: (u16, u16),
    prop: u64,
    p: u64,
    value: Option<ValueView>,
) -> bool {
    &&& p + 8 <= u64::MAX
    &&& exists|n: u32, data: u64|
        #![trigger in_memory::<u32>(w, (p + 8) as u64, n), in_memory::<u64>(w, p, data)]
        in_memory::<u32>(w, (p + 8) as u64, n) && in_memory::<u64>(w, p, data) && {
            if data == 0 {
                value == Some(ValueView::Array(Seq::empty()))
            } else {
                w.told_slot(prop, PointerField::ArrayInner) matches Some(inner) && inner != 0
                    && items_told(w, v, inner, data, n as usize, value)
            }
        }
}

/// Whether `value` is the array of the values at the first `n` positions, or none where one of them
/// is none.
pub open spec fn items_told(
    w: World,
    v: (u16, u16),
    prop: u64,
    base: u64,
    n: usize,
    value: Option<ValueView>,
) -> bool {
    match value {
        Some(ValueView::Array(items)) => items.len() == n && forall|i: int|
            0 <= i < n ==> has_value(w, v, prop, base, i as usize, Some(#[trigger] items[i])),
        Some(_) => false,
        None => exists|i: usize| i < n && #[trigger] has_value(w, v, prop, base, i, None),
    }
}

/// What there is in a list.
pub open spec fn those_there<T>(slots: Seq<Option<T>>) -> Seq<T>
    decreases slots.len(),
{
    if slots.len() == 0 {
        Seq::empty()
    } else {
        match slots.last() {
            Some(x) => those_there(slots.drop_last()).push(x),
            None => those_there(slots.drop_last()),
        }
    }
}

/// Whether the entry at an address of a map is that pair: its key and its value, or nothing where
/// one of them has no value.
pub open spec fn entry_told(
    w: World,
    v: (u16, u16),
    key_prop: u64,
    value_prop: u64,
    at: u64,
    pair: Option<(ValueView, ValueView)>,
) -> bool {
    exists|key: Option<ValueView>, value: Option<ValueView>|
        #![trigger has_value(w, v, key_prop, at, 0, key), has_value(w, v, value_prop, at, 0, value)]
        has_value(w, v, key_prop, at, 0, key) && has_value(w, v, value_prop, at, 0, value) && match (
            key,
            value,
        ) {
            (Some(k), Some(x)) => pair == Some((k, x)),
            _ => pair is None,
        }
}

/// Whether a position of a map holds that pair: where it has an entry, the key and the value that
/// are read in it; nothing where it has none, or where one of them has no value.
pub open spec fn pair_told(
    w: World,
    v: (u16, u16),
    key_prop: u64,
    value_prop: u64,
    p: u64,
    size: usize,
    i: u64,
    pair: Option<(ValueView, ValueView)>,
) -> bool {
    match w.told_flag(Query::EntryPresent { base: p, is_map: true, index: i }) {
        Some(true) => w.told_address(
            Query::EntryAddress { base: p, is_map: true, index: i, size },
        ) matches Some(at) && at != 0 && entry_told(w, v, key_prop, value_prop, at, pair),
        Some(false) => pair is None,
        None => false,
    }
}

/// Whether a position of a set holds that element.
pub open spec fn element_told(
    w: World,
    v: (u16, u16),
    element_prop: u64,
    p: u64,
    size: usize,
    i: u64,
    element: Option<ValueView>,
) -> bool {
    match w.told_flag(Query::EntryPresent { base: p, is_map: false, index: i }) {
        Some(true) => w.told_address(
            Query::EntryAddress { base: p, is_map: false, index: i, size },
        ) matches Some(at) && at != 0 && has_value(w, v, element_prop, at, 0, element),
        Some(false) => element is None,
        None => false,
    }
}

/// Whether `pairs` are those of the map at `p`: they are in the order of their keys, and have at
/// each key what the last position with such a key holds, and no other key.
pub open spec fn map_told(
    w: World,
    v: (u16, u16),
    prop: u64,
    p: u64,
    pairs: Seq<(ValueView, ValueView)>,
) -> bool {
    match (
        w.told_slot(prop, PointerField::MapKey),
        w.told_slot(prop, PointerField::MapValue),
        w.told_number(prop, NumberField::MapEntrySize),
        w.told_number(p, NumberField::MapMaxIndex),
    ) {
        (Some(key_prop), Some(value_prop), Some(size), Some(n)) => {
            &&& key_prop != 0
            &&& value_prop != 0
            &&& exists|slots: Seq<Option<(ValueView, ValueView)>>|
                #![trigger those_there(slots)]
                {
                    &&& slots.len() == if n < 0 {
                        0
                    } else {
                        n as nat
                    }
                    &&& forall|i: int|
                        0 <= i < slots.len() ==> pair_told(
                            w,
                            v,
                            key_prop,
                            value_prop,
                            p,
                            size as usize,
                            i as u64,
                            #[trigger] slots[i],
                        )
                    &&& crate::values::keys_in_order(pairs)
                    &&& forall|q: ValueView| #[trigger]
                        crate::values::value_at(pairs, q) == crate::values::last_given(
                            those_there(slots),
                            q,
                        )
                    &&& forall|k: int|
                        0 <= k < pairs.len() ==> crate::values::is_given_key(
                            those_there(slots),
                            (#[trigger] pairs[k]).0,
                        )
                }
        },
        _ => false,
    }
}

/// Whether `items` are those of the set at `p`: they are in order, and are those that the positions
/// hold, each counted once.
pub open spec fn set_told(
    w: World,
    v: (u16, u16),
    prop: u64,
    p: u64,
    items: Seq<ValueView>,
) -> bool {
    match (
        w.told_slot(prop, PointerField::SetElement),
        w.told_number(prop, NumberField::SetEntrySize),
        w.told_number(p, NumberField::SetMaxIndex),
    ) {
        (Some(element_prop), Some(size), Some(n)) => {
            &&& element_prop != 0
            &&& exists|slots: Seq<Option<ValueView>>|
                #![trigger those_there(slots)]
                {
                    &&& slots.len() == if n < 0 {
                        0
                    } else {
                        n as nat
                    }
                    &&& forall|i: int|
                        0 <= i < slots.len() ==> element_told(
                            w,
                            v,
                            element_prop,
                            p,
                            size as usize,
                            i as u64,
                            #[trigger] slots[i],
                        )
                    &&& crate::values::items_in_order(items)
                    &&& forall|q: ValueView| #[trigger]
                        crate::values::among(q, items) <==> crate::values::among(
                            q,
                            those_there(slots),
                        )
                    &&& forall|k: int|
                        0 <= k < items.len() ==> those_there(slots).contains(#[trigger] items[k])
                }
        },
        _ => false,
    }
}

proof fn lemma_names_told(w: World, t: nat, v: (u16, u16), e: u64)
    requires
        crate::paths::still(w),
    ensures
        enum_of(w, t, v, e).0 matches Ok(x) ==> w.told_names(e) == Some(x.names),
{
    if let (Ok(enum_flags), t1) = enum_flags_of(w, t, v, e) {
        if let (Ok(object), t2) = object_of(w, w.later(t, t1), v, e) {
            assert(enum_of(w, t, v, e) == enum_rest(w, t2, e, enum_flags, object));
        }
    }
}

proof fn lemma_bool_told(w: World, t: nat, prop: u64, p: u64)
    requires
        crate::paths::still(w),
    ensures
        bool_value(w, t, prop, p).0 matches Ok(x) ==> x matches Some(ValueView::Bool(b))
            && truth_told(w, prop, p, b),
{
}

proof fn lemma_object_told(w: World, t: nat, p: u64)
    requires
        crate::paths::still(w),
    ensures
        object_value(w, t, p).0 matches Ok(x) ==> x matches Some(ValueView::Object(path))
            && reference_told(w, p, path),
{
    if let (Ok(a), t1) = w.value::<u64>(t, p) {
        assert(in_memory::<u64>(w, p, a));
        if a != 0 {
            if let (Ok(path), _) = crate::paths::path_of(w, t1, a) {
                assert(crate::paths::has_path(w, a, path));
            }
        }
    }
}

proof fn lemma_byte_told(w: World, t: nat, v: (u16, u16), prop: u64, p: u64)
    requires
        crate::paths::still(w),
    ensures
        byte_value(w, t, v, prop, p).0 matches Ok(x) ==> x matches Some(ValueView::Byte(b))
            && byte_told(w, v, prop, p, b),
{
    if let (Ok(n), t1) = w.value::<u8>(t, p) {
        assert(in_memory::<u8>(w, p, n));
        let query = Query::Pointer { base: prop, field: PointerField::ByteEnum };
        if let (Ok(Some(e)), t2) = w.optional(t1, query) {
            lemma_names_told(w, t2, v, e);
            if let (Ok(x), _) = enum_of(w, t2, v, e) {
                first_name_counts(x.names, n as i64);
            }
        }
    }
}

proof fn lemma_enum_told(w: World, t: nat, v: (u16, u16), prop: u64, p: u64)
    requires
        crate::paths::still(w),
    ensures
        enum_value(w, t, v, prop, p).0 matches Ok(x) ==> x matches Some(ValueView::Enum(e))
            && enum_told(w, v, prop, p, e),
{
    let query = Query::Pointer { base: prop, field: PointerField::EnumUnderlying };
    if let (Ok(underlying), t1) = w.pointer(t, query) {
        if let (Ok(Some(x)), t2) = prop_value(w, t1, v, underlying, p, 0) {
            assert(has_value(w, v, underlying, p, 0, Some(x)));
            integers_are_numbers(x);
            if let Some(n) = integer_in(x) {
                let t3 = w.later(t1, t2);
                assert(enum_value(w, t, v, prop, p) == named_enum_value(w, t3, v, prop, n));
                assert(is_integer(x, n));
                let query = Query::Pointer { base: prop, field: PointerField::EnumEnum };
                if let (Ok(Some(e)), t4) = w.optional(t3, query) {
                    lemma_names_told(w, t4, v, e);
                    if let (Ok(of), _) = enum_of(w, t4, v, e) {
                        first_name_counts(of.names, n);
                    }
                }
            }
        }
    }
}

proof fn lemma_array_items_told(
    w: World,
    t: nat,
    v: (u16, u16),
    inner: u64,
    data: u64,
    i: usize,
    n: usize,
    seen: Seq<ValueView>,
)
    requires
        seen.len() == i <= n,
        forall|k: int|
            0 <= k < i ==> has_value(w, v, inner, data, k as usize, Some(#[trigger] seen[k])),
    ensures
        array_items(w, t, v, inner, data, i, n, seen).0 matches Ok(x) ==> items_told(
            w,
            v,
            inner,
            data,
            n,
            x,
        ),
    decreases n - i,
{
    if i < n {
        match prop_value(w, t, v, inner, data, i) {
            (Ok(Some(x)), t1) => {
                assert(has_value(w, v, inner, data, i, Some(x)));
                lemma_array_items_told(
                    w,
                    w.later(t, t1),
                    v,
                    inner,
                    data,
                    (i + 1) as usize,
                    n,
                    seen.push(x),
                );
            },
            (Ok(None), _) => {
                assert(has_value(w, v, inner, data, i, None));
            },
            (Err(_), _) => {},
        }
    }
}

proof fn lemma_array_told(w: World, t: nat, v: (u16, u16), prop: u64, p: u64)
    requires
        crate::paths::still(w),
    ensures
        array_value(w, t, v, prop, p).0 matches Ok(x) ==> array_told(w, v, prop, p, x),
{
    if p + 8 <= u64::MAX {
        if let (Ok(n), t1) = w.value::<u32>(t, (p + 8) as u64) {
            assert(in_memory::<u32>(w, (p + 8) as u64, n));
            if let (Ok(data), t2) = w.value::<u64>(t1, p) {
                assert(in_memory::<u64>(w, p, data));
                let query = Query::Pointer { base: prop, field: PointerField::ArrayInner };
                if let (Ok(inner), t3) = w.pointer(t2, query) {
                    lemma_array_items_told(w, t3, v, inner, data, 0, n as usize, Seq::empty());
                }
            }
        }
    }
}

/// Whether the first positions of a map hold those pairs.
spec fn pairs_told(
    w: World,
    v: (u16, u16),
    key_prop: u64,
    value_prop: u64,
    p: u64,
    size: usize,
    slots: Seq<Option<(ValueView, ValueView)>>,
) -> bool {
    forall|i: int|
        0 <= i < slots.len() ==> pair_told(
            w,
            v,
            key_prop,
            value_prop,
            p,
            size,
            i as u64,
            #[trigger] slots[i],
        )
}

spec fn both(key: Option<ValueView>, value: Option<ValueView>) -> Option<(ValueView, ValueView)> {
    match (key, value) {
        (Some(k), Some(x)) => Some((k, x)),
        _ => None,
    }
}

proof fn lemma_pair_told(
    w: World,
    v: (u16, u16),
    key_prop: u64,
    value_prop: u64,
    p: u64,
    size: usize,
    i: u64,
    at: u64,
    key: Option<ValueView>,
    value: Option<ValueView>,
)
    requires
        w.told_flag(Query::EntryPresent { base: p, is_map: true, index: i }) == Some(true),
        w.told_address(Query::EntryAddress { base: p, is_map: true, index: i, size }) == Some(at),
        at != 0,
        has_value(w, v, key_prop, at, 0, key),
        has_value(w, v, value_prop, at, 0, value),
    ensures
        pair_told(w, v, key_prop, value_prop, p, size, i, both(key, value)),
{
    assert(entry_told(w, v, key_prop, value_prop, at, both(key, value)));
}

proof fn lemma_pairs_told(
    w: World,
    t: nat,
    v: (u16, u16),
    key_prop: u64,
    value_prop: u64,
    p: u64,
    size: usize,
    n: i64,
    slots: Seq<Option<(ValueView, ValueView)>>,
) -> (all: Seq<Option<(ValueView, ValueView)>>)
    requires
        crate::paths::still(w),
        slots.len() <= if n < 0 {
            0
        } else {
            n as nat
        },
        pairs_told(w, v, key_prop, value_prop, p, size, slots),
    ensures
        ({
            let seen = crate::values::with_pairs(Seq::empty(), those_there(slots));
            map_pairs(w, t, v, key_prop, value_prop, p, size, slots.len() as u64, n, seen).0
                matches Ok(x) ==> {
                &&& all.len() == if n < 0 {
                    0
                } else {
                    n as nat
                }
                &&& pairs_told(w, v, key_prop, value_prop, p, size, all)
                &&& x == Some(
                    ValueView::MapOf(
                        crate::values::with_pairs(Seq::empty(), those_there(all)),
                    ),
                )
            }
        }),
    decreases w.limit - t,
{
    let i = slots.len() as u64;
    let given = those_there(slots);
    let none = Seq::<(ValueView, ValueView)>::empty();
    if i >= n {
        slots
    } else {
        match w.flag(t, Query::EntryPresent { base: p, is_map: true, index: i }) {
            (Ok(true), t1) => {
                let query = Query::EntryAddress { base: p, is_map: true, index: i, size };
                match w.pointer(t1, query) {
                    (Ok(at), t2) => {
                        let (key, t3) = prop_value(w, t2, v, key_prop, at, 0);
                        let (value, t4) = prop_value(w, w.later(t2, t3), v, value_prop, at, 0);
                        match (key, value) {
                            (Ok(key), Ok(value)) => {
                                let pair = both(key, value);
                                assert(has_value(w, v, key_prop, at, 0, key));
                                assert(has_value(w, v, value_prop, at, 0, value));
                                lemma_pair_told(
                                    w,
                                    v,
                                    key_prop,
                                    value_prop,
                                    p,
                                    size,
                                    i,
                                    at,
                                    key,
                                    value,
                                );
                                let more = slots.push(pair);
                                assert(more.drop_last() =~= slots);
                                if let Some(x) = pair {
                                    crate::values::one_more_is_put_in(
                                        none,
                                        given,
                                        x,
                                        Seq::empty(),
                                        Seq::empty(),
                                        arbitrary(),
                                    );
                                }
                                lemma_pairs_told(
                                    w,
                                    w.later(t2, t4),
                                    v,
                                    key_prop,
                                    value_prop,
                                    p,
                                    size,
                                    n,
                                    more,
                                )
                            },
                            _ => slots,
                        }
                    },
                    (Err(_), _) => slots,
                }
            },
            (Ok(false), t1) => {
                let more = slots.push(None);
                assert(more.drop_last() =~= slots);
                assert(pair_told(w, v, key_prop, value_prop, p, size, i, None));
                lemma_pairs_told(w, t1, v, key_prop, value_prop, p, size, n, more)
            },
            (Err(_), _) => slots,
        }
    }
}

proof fn lemma_map_told(w: World, t: nat, v: (u16, u16), prop: u64, p: u64)
    requires
        crate::paths::still(w),
    ensures
        map_value(w, t, v, prop, p).0 matches Ok(x) ==> x matches Some(ValueView::MapOf(pairs))
            && map_told(w, v, prop, p, pairs),
{
    if let (Ok(key_prop), t1) = w.pointer(
        t,
        Query::Pointer { base: prop, field: PointerField::MapKey },
    ) {
        if let (Ok(value_prop), t2) = w.pointer(
            t1,
            Query::Pointer { base: prop, field: PointerField::MapValue },
        ) {
            if let (Ok(size), t3) = w.number(t2, prop, NumberField::MapEntrySize) {
                if let (Ok(n), t4) = w.number(t3, p, NumberField::MapMaxIndex) {
                    let none = Seq::<Option<(ValueView, ValueView)>>::empty();
                    let all = lemma_pairs_told(
                        w,
                        t4,
                        v,
                        key_prop,
                        value_prop,
                        p,
                        size as usize,
                        n,
                        none,
                    );
                    assert(those_there(none) =~= Seq::empty());
                    assert(crate::values::with_pairs(Seq::empty(), those_there(none))
                        =~= Seq::empty());
                    crate::values::map_holds_what_is_put_in(those_there(all));
                }
            }
        }
    }
}

/// Whether the first positions of a set hold those elements.
spec fn elements_told(
    w: World,
    v: (u16, u16),
    element_prop: u64,
    p: u64,
    size: usize,
    slots: Seq<Option<ValueView>>,
) -> bool {
    forall|i: int|
        0 <= i < slots.len() ==> element_told(
            w,
            v,
            element_prop,
            p,
            size,
            i as u64,
            #[trigger] slots[i],
        )
}

proof fn lemma_elements_told(
    w: World,
    t: nat,
    v: (u16, u16),
    element_prop: u64,
    p: u64,
    size: usize,
    n: i64,
    slots: Seq<Option<ValueView>>,
) -> (all: Seq<Option<ValueView>>)
    requires
        crate::paths::still(w),
        slots.len() <= if n < 0 {
            0
        } else {
            n as nat
        },
        elements_told(w, v, element_prop, p, size, slots),
    ensures
        ({
            let seen = crate::values::with_items(Seq::empty(), those_there(slots));
            set_items(w, t, v, element_prop, p, size, slots.len() as u64, n, seen).0 matches Ok(x)
                ==> {
                &&& all.len() == if n < 0 {
                    0
                } else {
                    n as nat
                }
                &&& elements_told(w, v, element_prop, p, size, all)
                &&& x == Some(
                    ValueView::SetOf(
                        crate::values::with_items(Seq::empty(), those_there(all)),
                    ),
                )
            }
        }),
    decreases w.limit - t,
{
    let i = slots.len() as u64;
    let given = those_there(slots);
    if i >= n {
        slots
    } else {
        match w.flag(t, Query::EntryPresent { base: p, is_map: false, index: i }) {
            (Ok(true), t1) => {
                let query = Query::EntryAddress { base: p, is_map: false, index: i, size };
                match w.pointer(t1, query) {
                    (Ok(at), t2) => {
                        match prop_value(w, t2, v, element_prop, at, 0) {
                            (Ok(element), t3) => {
                                assert(has_value(w, v, element_prop, at, 0, element));
                                assert(element_told(w, v, element_prop, p, size, i, element));
                                let more = slots.push(element);
                                assert(more.drop_last() =~= slots);
                                if let Some(x) = element {
                                    crate::values::one_more_is_put_in(
                                        Seq::empty(),
                                        Seq::empty(),
                                        arbitrary(),
                                        Seq::empty(),
                                        given,
                                        x,
                                    );
                                }
                                lemma_elements_told(
                                    w,
                                    w.later(t2, t3),
                                    v,
                                    element_prop,
                                    p,
                                    size,
                                    n,
                                    more,
                                )
                            },
                            (Err(_), _) => slots,
                        }
                    },
                    (Err(_), _) => slots,
                }
            },
            (Ok(false), t1) => {
                let more = slots.push(None);
                assert(more.drop_last() =~= slots);
                assert(element_told(w, v, element_prop, p, size, i, None));
                lemma_elements_told(w, t1, v, element_prop, p, size, n, more)
            },
            (Err(_), _) => slots,
        }
    }
}

proof fn lemma_set_told(w: World, t: nat, v: (u16, u16), prop: u64, p: u64)
    requires
        crate::paths::still(w),
    ensures
        set_value(w, t, v, prop, p).0 matches Ok(x) ==> x matches Some(ValueView::SetOf(items))
            && set_told(w, v, prop, p, items),
{
    if let (Ok(element_prop), t1) = w.pointer(
        t,
        Query::Pointer { base: prop, field: PointerField::SetElement },
    ) {
        if let (Ok(size), t2) = w.number(t1, prop, NumberField::SetEntrySize) {
            if let (Ok(n), t3) = w.number(t2, p, NumberField::SetMaxIndex) {
                let none = Seq::<Option<ValueView>>::empty();
                let all = lemma_elements_told(
                    w,
                    t3,
                    v,
                    element_prop,
                    p,
                    size as usize,
                    n,
                    none,
                );
                assert(those_there(none) =~= Seq::empty());
                assert(crate::values::with_items(Seq::empty(), those_there(none)) =~= Seq::empty());
                crate::values::set_holds_what_is_put_in(those_there(all));
            }
        }
    }
}

proof fn lemma_number_told(w: World, t: nat, v: (u16, u16), prop: u64, p: u64, flag: CastFlag)
    requires
        crate::paths::still(w),
        number_value(w, t, p, flag).0 is Ok,
    ensures
        value_told(w, v, prop, p, flag, number_value(w, t, p, flag).0->Ok_0),
{
}

proof fn lemma_text_told(w: World, t: nat, v: (u16, u16), prop: u64, p: u64, flag: CastFlag)
    requires
        crate::paths::still(w),
        flag == CastFlag::FStrProperty || flag == CastFlag::FNameProperty || flag
            == CastFlag::FUtf8StrProperty || flag == CastFlag::FAnsiStrProperty,
        text_value(w, t, p, flag).0 is Ok,
    ensures
        value_told(w, v, prop, p, flag, text_value(w, t, p, flag).0->Ok_0),
{
}

proof fn lemma_struct_told(w: World, t: nat, v: (u16, u16), prop: u64, p: u64)
    requires
        crate::paths::still(w),
        struct_value(w, t, v, prop, p).0 is Ok,
    ensures
        value_told(
            w,
            v,
            prop,
            p,
            CastFlag::FStructProperty,
            struct_value(w, t, v, prop, p).0->Ok_0,
        ),
{
    let query = Query::Pointer { base: prop, field: PointerField::StructPropertyStruct };
    let (s, t1) = w.pointer(t, query);
    let (fields, _) = fields_of(w, t1, v, s->Ok_0, p, 0, Seq::empty());
    assert(has_fields(w, v, s->Ok_0, p, fields->Ok_0));
}

#[verifier::rlimit(40)]
#[verifier::spinoff_prover]
proof fn lemma_value_told(w: World, t: nat, v: (u16, u16), prop: u64, p: u64, flag: CastFlag)
    requires
        crate::paths::still(w),
        kind_value(w, t, v, prop, p, flag).0 is Ok,
    ensures
        value_told(w, v, prop, p, flag, kind_value(w, t, v, prop, p, flag).0->Ok_0),
{
    if no_value(flag) {
    } else if flag == CastFlag::FStructProperty {
        assert(kind_value(w, t, v, prop, p, flag) == struct_value(w, t, v, prop, p));
        lemma_struct_told(w, t, v, prop, p);
    } else if flag == CastFlag::FBoolProperty {
        lemma_bool_told(w, t, prop, p);
    } else if flag == CastFlag::FArrayProperty {
        assert(kind_value(w, t, v, prop, p, flag) == array_value(w, t, v, prop, p));
        lemma_array_told(w, t, v, prop, p);
    } else if flag == CastFlag::FEnumProperty {
        assert(kind_value(w, t, v, prop, p, flag) == enum_value(w, t, v, prop, p));
        lemma_enum_told(w, t, v, prop, p);
    } else if flag == CastFlag::FMapProperty {
        assert(kind_value(w, t, v, prop, p, flag) == map_value(w, t, v, prop, p));
        lemma_map_told(w, t, v, prop, p);
    } else if flag == CastFlag::FSetProperty {
        assert(kind_value(w, t, v, prop, p, flag) == set_value(w, t, v, prop, p));
        lemma_set_told(w, t, v, prop, p);
    } else if flag == CastFlag::FByteProperty {
        assert(kind_value(w, t, v, prop, p, flag) == byte_value(w, t, v, prop, p));
        lemma_byte_told(w, t, v, prop, p);
    } else if flag == CastFlag::FObjectProperty {
        lemma_object_told(w, t, p);
    } else if flag == CastFlag::FStrProperty || flag == CastFlag::FNameProperty || flag
        == CastFlag::FUtf8StrProperty || flag == CastFlag::FAnsiStrProperty {
        assert(kind_value(w, t, v, prop, p, flag) == text_value(w, t, p, flag));
        lemma_text_told(w, t, v, prop, p, flag);
    } else {
        assert(kind_value(w, t, v, prop, p, flag) == number_value(w, t, p, flag));
        lemma_number_told(w, t, v, prop, p, flag);
    }
}

/// Whether `value` is what the target says of the value at `p` by the first kind that one of those
/// flags of its property names.
pub open spec fn read_by_first_kind(
    w: World,
    v: (u16, u16),
    prop: u64,
    p: u64,
    flags: Seq<CastFlag>,
    value: Option<ValueView>,
) -> bool {
    exists|flag: CastFlag|
        #![trigger value_told(w, v, prop, p, flag, value)]
        crate::property_types::is_first(value_order(), flags, flag) && value_told(
            w,
            v,
            prop,
            p,
            flag,
            value,
        )
}

/// In a target that stands still the value of a property is what lies in the memory where the
/// property says: behind `base` by its offset and by as many sizes as the position says. It is read
/// by the first kind that the flags of the property name.
pub proof fn values_are_what_is_told(
    w: World,
    v: (u16, u16),
    prop: u64,
    base: u64,
    index: usize,
    value: Option<ValueView>,
)
    requires
        crate::paths::still(w),
        has_value(w, v, prop, base, index, value),
    ensures
        match (
            w.told_number(prop, NumberField::PropertyOffset),
            w.told_number(prop, NumberField::PropertyElementSize),
            w.told_cast_flags(Query::FieldCastFlags { base: prop }),
        ) {
            (Some(offset), Some(size), Some(flags)) => {
                let p = base + (offset as usize) + index * (size as usize);
                p <= u64::MAX && read_by_first_kind(w, v, prop, p as u64, flags, value)
            },
            _ => false,
        },
{
    let t = choose|t: nat|
        (#[trigger] prop_value(w, t, v, prop, base, index)).0 == Ok::<_, ReadError>(value);
    let (size, t1) = w.number(t, prop, NumberField::PropertyElementSize);
    let (offset, t2) = w.number(t1, prop, NumberField::PropertyOffset);
    let (f, t3) = w.cast_flags(t2, Query::FieldCastFlags { base: prop });
    let p = value_place(base, offset->Ok_0 as usize, index, size->Ok_0 as usize)->0;
    first_kind_decides_on_value(f->Ok_0);
    let flag = value_flag(f->Ok_0)->0;
    assert(prop_value(w, t, v, prop, base, index) == kind_value(w, t3, v, prop, p, flag));
    lemma_value_told(w, t3, v, prop, p, flag);
    assert(value_told(w, v, prop, p, flag, value));
    let place = base + (offset->Ok_0 as usize) + index * (size->Ok_0 as usize);
    assert(p == place as u64 && place <= u64::MAX);
    assert(read_by_first_kind(w, v, prop, place as u64, f->Ok_0.named@, value));
}

/// Whether the target lists those fields of a struct, with those of its bases or without, in that
/// order and no more.
pub open spec fn lists_fields(w: World, s: u64, inherited: bool, listed: Seq<u64>) -> bool {
    &&& forall|i: int|
        0 <= i < listed.len() ==> #[trigger] listed[i] != 0 && w.told_address(
            Query::StructProperty { base: s, inherited, index: i as u64 },
        ) == Some(listed[i])
    &&& w.told_address(
        Query::StructProperty { base: s, inherited, index: listed.len() as u64 },
    ) == Some(0u64)
}

/// Whether `value` is that of a property as a field: its only value, or all its values as an array
/// where their number is another than one.
pub open spec fn field_told(
    w: World,
    v: (u16, u16),
    prop: u64,
    base: u64,
    value: Option<ValueView>,
) -> bool {
    w.told_number(prop, NumberField::PropertyArrayDim) matches Some(dim) && if dim as usize == 1 {
        has_value(w, v, prop, base, 0, value)
    } else {
        items_told(w, v, prop, base, dim as usize, value)
    }
}

/// Whether an entry is the name of a property with its value as a field of what lies at `base`.
pub open spec fn entry_of_field(
    w: World,
    v: (u16, u16),
    prop: u64,
    base: u64,
    entry: (Seq<char>, Option<ValueView>),
) -> bool {
    w.told_text(prop, TextField::FieldName) == Some(entry.0) && field_told(
        w,
        v,
        prop,
        base,
        entry.1,
    )
}

/// Whether `fields` are those of what lies at `base` by the properties of a struct and of its
/// bases: one for each name of a property that has a value there.
pub open spec fn fields_told(
    w: World,
    v: (u16, u16),
    s: u64,
    base: u64,
    fields: Seq<(Seq<char>, ValueView)>,
) -> bool {
    exists|listed: Seq<u64>, entries: Seq<(Seq<char>, Option<ValueView>)>|
        #![trigger lists_fields(w, s, true, listed), crate::values::fields_by_name(entries, fields)]
        {
            &&& lists_fields(w, s, true, listed)
            &&& entries.len() == listed.len()
            &&& forall|i: int|
                0 <= i < listed.len() ==> entry_of_field(
                    w,
                    v,
                    #[trigger] listed[i],
                    base,
                    entries[i],
                )
            &&& crate::values::fields_by_name(entries, fields)
        }
}

proof fn lemma_dim_items_told(
    w: World,
    t: nat,
    v: (u16, u16),
    prop: u64,
    base: u64,
    i: usize,
    n: usize,
    seen: Option<Seq<ValueView>>,
)
    requires
        i <= n,
        match seen {
            Some(items) => items.len() == i && forall|k: int|
                0 <= k < i ==> has_value(w, v, prop, base, k as usize, Some(#[trigger] items[k])),
            None => exists|k: usize| k < n && #[trigger] has_value(w, v, prop, base, k, None),
        },
    ensures
        dim_items(w, t, v, prop, base, i, n, seen).0 matches Ok(x) ==> items_told(
            w,
            v,
            prop,
            base,
            n,
            match x {
                Some(items) => Some(ValueView::Array(items)),
                None => None,
            },
        ),
    decreases n - i,
{
    if i < n {
        if let (Ok(x), t1) = prop_value(w, t, v, prop, base, i) {
            assert(has_value(w, v, prop, base, i, x));
            let more = match (seen, x) {
                (Some(s), Some(x)) => Some(s.push(x)),
                _ => None,
            };
            lemma_dim_items_told(w, w.later(t, t1), v, prop, base, (i + 1) as usize, n, more);
        }
    }
}

proof fn lemma_field_told(w: World, t: nat, v: (u16, u16), prop: u64, base: u64, dim: i64)
    requires
        w.told_number(prop, NumberField::PropertyArrayDim) == Some(dim),
    ensures
        field_value(w, t, v, prop, base, dim as usize).0 matches Ok(x) ==> field_told(
            w,
            v,
            prop,
            base,
            x,
        ),
{
    let n = dim as usize;
    if n == 1 {
        if let (Ok(x), _) = prop_value(w, t, v, prop, base, 0) {
            assert(has_value(w, v, prop, base, 0, x));
        }
    } else {
        lemma_dim_items_told(w, t, v, prop, base, 0, n, Some(Seq::empty()));
    }
}

proof fn lemma_fields_told(
    w: World,
    t: nat,
    v: (u16, u16),
    s: u64,
    base: u64,
    listed: Seq<u64>,
    entries: Seq<(Seq<char>, Option<ValueView>)>,
    seen: Seq<(Seq<char>, ValueView)>,
)
    requires
        crate::paths::still(w),
        w.limit <= u64::MAX,
        listed.len() <= t,
        entries.len() == listed.len(),
        forall|i: int|
            0 <= i < listed.len() ==> #[trigger] listed[i] != 0 && w.told_address(
                Query::StructProperty { base: s, inherited: true, index: i as u64 },
            ) == Some(listed[i]),
        forall|i: int|
            0 <= i < listed.len() ==> entry_of_field(w, v, #[trigger] listed[i], base, entries[i]),
        crate::values::fields_by_name(entries, seen),
    ensures
        fields_of(w, t, v, s, base, listed.len() as u64, seen).0 matches Ok(fields) ==> fields_told(
            w,
            v,
            s,
            base,
            fields,
        ),
    decreases w.limit - t,
{
    let index = listed.len() as u64;
    let query = Query::StructProperty { base: s, inherited: true, index };
    if t < w.limit {
        match w.optional(t, query) {
            (Ok(Some(prop)), t1) => {
                if let (Ok(dim), t2) = w.number(t1, prop, NumberField::PropertyArrayDim) {
                    if let (Ok(name), t3) = w.text(t2, prop, TextField::FieldName) {
                        lemma_field_told(w, t3, v, prop, base, dim);
                        if let (Ok(value), t4) = field_value(
                            w,
                            t3,
                            v,
                            prop,
                            base,
                            dim as usize,
                        ) {
                            let entry = (name, value);
                            assert(entry_of_field(w, v, prop, base, entry));
                            let more = listed.push(prop);
                            let all = entries.push(entry);
                            assert forall|i: int| 0 <= i < more.len() implies entry_of_field(
                                w,
                                v,
                                #[trigger] more[i],
                                base,
                                all[i],
                            ) by {
                                if i < listed.len() {
                                    assert(more[i] == listed[i]);
                                }
                            }
                            crate::values::fields_stay_by_name(entries, seen, name, value);
                            let next = match value {
                                Some(x) => crate::values::with_field(seen, name, x),
                                None => seen,
                            };
                            lemma_fields_told(w, w.later(t3, t4), v, s, base, more, all, next);
                        }
                    }
                }
            },
            (Ok(None), _) => {
                assert(lists_fields(w, s, true, listed));
                assert(fields_told(w, v, s, base, seen));
            },
            (Err(_), _) => {},
        }
    }
}

/// In a target that stands still the fields of what lies at an address are the values there of the
/// properties that the struct and its bases list, by name.
pub proof fn fields_are_what_is_told(
    w: World,
    v: (u16, u16),
    s: u64,
    base: u64,
    fields: Seq<(Seq<char>, ValueView)>,
)
    requires
        crate::paths::still(w),
        w.limit <= u64::MAX,
        has_fields(w, v, s, base, fields),
    ensures
        fields_told(w, v, s, base, fields),
{
    let t = choose|t: nat|
        (#[trigger] fields_of(w, t, v, s, base, 0, Seq::empty())).0 == Ok::<_, ReadError>(fields);
    lemma_fields_told(w, t, v, s, base, Seq::empty(), Seq::empty(), Seq::empty());
}

/// In a target that stands still an object is what the target says of it: what it lies in, its
/// class, its flags, and the fields that its own memory holds by the properties of its class. It
/// has no children yet.
pub proof fn objects_are_what_is_told(w: World, v: (u16, u16), obj: u64, object: ObjectView)
    requires
        crate::paths::still(w),
        has_object(w, v, obj, object),
    ensures
        object.address == obj,
        w.told_word(obj, WordField::ObjectVtable) == Some(object.vtable),
        w.told_object_flags(obj) == Some(object.object_flags),
        crate::property_types::may_name_object(w, obj, PointerField::ObjectOuter, object.outer),
        crate::property_types::names_object(w, obj, PointerField::ObjectClass, object.class),
        object.children == Set::<Seq<char>>::empty(),
        w.told_slot(obj, PointerField::ObjectClass) matches Some(class) && has_fields(
            w,
            v,
            class,
            obj,
            object.property_values,
        ),
{
    let t = choose|t: nat| (#[trigger] object_of(w, t, v, obj)).0 == Ok::<_, ReadError>(object);
    let (outer, t1) = crate::property_types::optional_target_path(
        w,
        t,
        obj,
        PointerField::ObjectOuter,
    );
    crate::property_types::lemma_names_object(w, t, obj, PointerField::ObjectOuter);
    let (class, t2) = w.pointer(
        t1,
        Query::Pointer { base: obj, field: PointerField::ObjectClass },
    );
    let (class_path, t3) = crate::paths::path_of(w, t2, class->Ok_0);
    assert(crate::paths::has_path(w, class->Ok_0, class_path->Ok_0));
    let t4 = w.later(t, t3);
    assert(object_of(w, t, v, obj) == object_fields(
        w,
        t4,
        v,
        obj,
        class->Ok_0,
        outer->Ok_0,
        class_path->Ok_0,
    ));
    let (vtable, t5) = w.word(t4, obj, WordField::ObjectVtable);
    let (flags, t6) = w.object_flags(t5, obj);
    let (fields, _) = fields_of(w, t6, v, class->Ok_0, obj, 0, Seq::empty());
    assert(has_fields(w, v, class->Ok_0, obj, fields->Ok_0));
}

/// In a target that stands still an enum is what the target says of it: its names with their values
/// in their order, how it is declared, and its flags, which enums have since version 4.26.
pub proof fn enums_are_what_is_told(w: World, v: (u16, u16), e: u64, of: EnumView)
    requires
        crate::paths::still(w),
        has_enum(w, v, e, of),
    ensures
        has_object(w, v, e, of.object),
        w.told_names(e) == Some(of.names),
        w.told_text(e, TextField::EnumCppType) == Some(of.cpp_type),
        w.told_byte(e, ByteField::EnumCppForm) == Some(of.cpp_form.discriminant),
        match of.enum_flags {
            Some(f) => (v.0 > 4 || v.0 == 4 && v.1 >= 26) && w.told_byte(e, ByteField::EnumFlags)
                == Some(f.bits),
            None => v.0 < 4 || v.0 == 4 && v.1 < 26,
        },
{
    let t = choose|t: nat| (#[trigger] enum_of(w, t, v, e)).0 == Ok::<_, ReadError>(of);
    let (enum_flags, t1) = enum_flags_of(w, t, v, e);
    let (object, t2) = object_of(w, w.later(t, t1), v, e);
    assert(enum_of(w, t, v, e) == enum_rest(w, t2, e, enum_flags->Ok_0, object->Ok_0));
    assert(has_object(w, v, e, object->Ok_0));
}

proof fn lemma_number_read(w: World, t: nat, p: u64, kind: CastFlag)
    requires
        crate::session::answers_all(w),
        is_number_kind(kind),
    ensures
        crate::session::read_or_ran_out(w, number_value(w, t, p, kind)),
{
    lemma_value_read::<Float32>(w, t, p);
    lemma_value_read::<Float64>(w, t, p);
    lemma_value_read::<u16>(w, t, p);
    lemma_value_read::<u32>(w, t, p);
    lemma_value_read::<u64>(w, t, p);
    lemma_value_read::<i8>(w, t, p);
    lemma_value_read::<i16>(w, t, p);
    lemma_value_read::<i32>(w, t, p);
    lemma_value_read::<i64>(w, t, p);
}

spec fn is_number_kind(kind: CastFlag) -> bool {
    match kind {
        CastFlag::FFloatProperty => true,
        CastFlag::FDoubleProperty => true,
        CastFlag::FUInt16Property => true,
        CastFlag::FUInt32Property => true,
        CastFlag::FUInt64Property => true,
        CastFlag::FInt8Property => true,
        CastFlag::FInt16Property => true,
        CastFlag::FIntProperty => true,
        CastFlag::FInt64Property => true,
        _ => false,
    }
}

proof fn lemma_value_read<T: Pod>(w: World, t: nat, p: u64)
    requires
        crate::session::answers_all(w),
        T::width() <= 8,
        forall|bytes: Seq<u8>| (#[trigger] T::decode(bytes)) is Ok,
    ensures
        crate::session::read_or_ran_out(w, w.value::<T>(t, p)),
{
    let query = Query::Memory { address: p, len: T::width() as usize };
    if t < w.limit {
        assert((w.answers)(t, query) is Ok);
    }
}

proof fn lemma_simple_read(w: World, t: nat, prop: u64, p: u64, kind: CastFlag)
    requires
        crate::session::answers_all(w),
    ensures
        crate::session::read_or_ran_out(w, text_value(w, t, p, kind)),
        crate::session::read_or_broken(w, bool_value(w, t, prop, p)),
        crate::session::read_or_ran_out(w, object_value(w, t, p)),
{
    crate::session::questions_are_answered(w, t, p);
    let field = match kind {
        CastFlag::FStrProperty => TextField::StringValue,
        CastFlag::FNameProperty => TextField::NameValue,
        _ => TextField::Utf8StringValue,
    };
    assert(crate::session::read_or_ran_out(w, w.text(t, p, field)));
    crate::session::questions_are_answered(w, t, prop);
    let a = w.byte(t, prop, ByteField::BoolByteOffset);
    crate::session::questions_are_answered(w, a.1, prop);
    let b = w.byte(a.1, prop, ByteField::BoolByteMask);
    assert(crate::session::read_or_ran_out(w, a));
    assert(crate::session::read_or_ran_out(w, b));
    lemma_value_read::<u8>(w, b.1, (p + a.0->Ok_0) as u64);
    lemma_value_read::<u64>(w, t, p);
    if let (Ok(x), t1) = w.value::<u64>(t, p) {
        crate::paths::paths_can_be_read(w, t1, x);
    }
}

proof fn lemma_array_items_read(
    w: World,
    t: nat,
    v: (u16, u16),
    inner: u64,
    data: u64,
    i: usize,
    n: usize,
    seen: Seq<ValueView>,
)
    requires
        crate::session::answers_all(w),
        crate::property_types::fields_have_kinds(w),
    ensures
        crate::session::read_or_broken(w, array_items(w, t, v, inner, data, i, n, seen)),
    decreases w.limit - t, 1int, n - i,
{
    if i < n {
        values_can_be_read(w, t, v, inner, data, i);
        if let (Ok(Some(x)), t1) = prop_value(w, t, v, inner, data, i) {
            lemma_array_items_read(
                w,
                w.later(t, t1),
                v,
                inner,
                data,
                (i + 1) as usize,
                n,
                seen.push(x),
            );
        }
    }
}

proof fn lemma_array_read(w: World, t: nat, v: (u16, u16), prop: u64, p: u64)
    requires
        crate::session::answers_all(w),
        crate::property_types::fields_have_kinds(w),
    ensures
        crate::session::read_or_broken(w, array_value(w, t, v, prop, p)),
    decreases w.limit - t, 5int, 0int,
{
    if p + 8 <= u64::MAX {
        lemma_value_read::<u32>(w, t, (p + 8) as u64);
        if let (Ok(n), t1) = w.value::<u32>(t, (p + 8) as u64) {
            lemma_value_read::<u64>(w, t1, p);
            if let (Ok(data), t2) = w.value::<u64>(t1, p) {
                crate::session::questions_are_answered(w, t2, prop);
                let a = w.pointer(
                    t2,
                    Query::Pointer { base: prop, field: PointerField::ArrayInner },
                );
                assert(crate::session::read_or_ran_out(w, a));
                if let (Ok(inner), t3) = a {
                    lemma_array_items_read(w, t3, v, inner, data, 0, n as usize, Seq::empty());
                }
            }
        }
    }
}

proof fn lemma_enum_value_read(w: World, t: nat, v: (u16, u16), prop: u64, p: u64)
    requires
        crate::session::answers_all(w),
        crate::property_types::fields_have_kinds(w),
    ensures
        crate::session::read_or_broken(w, enum_value(w, t, v, prop, p)),
    decreases w.limit - t, 5int, 0int,
{
    crate::session::questions_are_answered(w, t, prop);
    let a = w.pointer(t, Query::Pointer { base: prop, field: PointerField::EnumUnderlying });
    assert(crate::session::read_or_ran_out(w, a));
    if let (Ok(underlying), t1) = a {
        values_can_be_read(w, t1, v, underlying, p, 0);
        if let (Ok(Some(x)), t2) = prop_value(w, t1, v, underlying, p, 0) {
            if let Some(n) = integer_in(x) {
                let t3 = w.later(t1, t2);
                assert(enum_value(w, t, v, prop, p) == named_enum_value(w, t3, v, prop, n));
                crate::session::questions_are_answered(w, t3, prop);
                let b = w.optional(
                    t3,
                    Query::Pointer { base: prop, field: PointerField::EnumEnum },
                );
                assert(crate::session::read_or_ran_out(w, b));
                if let (Ok(Some(e)), t4) = b {
                    enums_can_be_read(w, t4, v, e);
                }
            }
        }
    }
}

proof fn lemma_byte_read(w: World, t: nat, v: (u16, u16), prop: u64, p: u64)
    requires
        crate::session::answers_all(w),
        crate::property_types::fields_have_kinds(w),
    ensures
        crate::session::read_or_broken(w, byte_value(w, t, v, prop, p)),
    decreases w.limit - t, 5int, 0int,
{
    lemma_value_read::<u8>(w, t, p);
    if let (Ok(n), t1) = w.value::<u8>(t, p) {
        crate::session::questions_are_answered(w, t1, prop);
        let b = w.optional(t1, Query::Pointer { base: prop, field: PointerField::ByteEnum });
        assert(crate::session::read_or_ran_out(w, b));
        if let (Ok(Some(e)), t2) = b {
            enums_can_be_read(w, t2, v, e);
        }
    }
}

proof fn lemma_map_pairs_read(
    w: World,
    t: nat,
    v: (u16, u16),
    key_prop: u64,
    value_prop: u64,
    p: u64,
    size: usize,
    i: u64,
    n: i64,
    seen: Seq<(ValueView, ValueView)>,
)
    requires
        crate::session::answers_all(w),
        crate::property_types::fields_have_kinds(w),
    ensures
        crate::session::read_or_broken(
            w,
            map_pairs(w, t, v, key_prop, value_prop, p, size, i, n, seen),
        ),
    decreases w.limit - t, 1int, 0int,
{
    let query = Query::EntryPresent { base: p, is_map: true, index: i };
    if i < n && t < w.limit {
        assert((w.answers)(t, query) is Ok);
        match w.flag(t, query) {
            (Ok(true), t1) => {
                let query = Query::EntryAddress { base: p, is_map: true, index: i, size };
                assert((w.answers)(t1, query) is Ok);
                if let (Ok(pair), t2) = w.pointer(t1, query) {
                    values_can_be_read(w, t2, v, key_prop, pair, 0);
                    if let (Ok(key), t3) = prop_value(w, t2, v, key_prop, pair, 0) {
                        let t4 = w.later(t2, t3);
                        values_can_be_read(w, t4, v, value_prop, pair, 0);
                        if let (Ok(value), t5) = prop_value(w, t4, v, value_prop, pair, 0) {
                            let more = match (key, value) {
                                (Some(k), Some(x)) => crate::values::with_pair(seen, k, x),
                                _ => seen,
                            };
                            lemma_map_pairs_read(
                                w,
                                w.later(t2, t5),
                                v,
                                key_prop,
                                value_prop,
                                p,
                                size,
                                (i + 1) as u64,
                                n,
                                more,
                            );
                        }
                    }
                }
            },
            (Ok(false), t1) => {
                lemma_map_pairs_read(
                    w,
                    t1,
                    v,
                    key_prop,
                    value_prop,
                    p,
                    size,
                    (i + 1) as u64,
                    n,
                    seen,
                );
            },
            (Err(_), _) => {},
        }
    }
}

proof fn lemma_map_read(w: World, t: nat, v: (u16, u16), prop: u64, p: u64)
    requires
        crate::session::answers_all(w),
        crate::property_types::fields_have_kinds(w),
    ensures
        crate::session::read_or_broken(w, map_value(w, t, v, prop, p)),
    decreases w.limit - t, 5int, 0int,
{
    crate::session::questions_are_answered(w, t, prop);
    let a = w.pointer(t, Query::Pointer { base: prop, field: PointerField::MapKey });
    assert(crate::session::read_or_ran_out(w, a));
    crate::session::questions_are_answered(w, a.1, prop);
    let b = w.pointer(a.1, Query::Pointer { base: prop, field: PointerField::MapValue });
    assert(crate::session::read_or_ran_out(w, b));
    crate::session::questions_are_answered(w, b.1, prop);
    let c = w.number(b.1, prop, NumberField::MapEntrySize);
    assert(crate::session::read_or_ran_out(w, c));
    crate::session::questions_are_answered(w, c.1, p);
    let d = w.number(c.1, p, NumberField::MapMaxIndex);
    assert(crate::session::read_or_ran_out(w, d));
    if a.0 is Ok && b.0 is Ok && c.0 is Ok && d.0 is Ok {
        lemma_map_pairs_read(
            w,
            d.1,
            v,
            a.0->Ok_0,
            b.0->Ok_0,
            p,
            c.0->Ok_0 as usize,
            0,
            d.0->Ok_0,
            Seq::empty(),
        );
    }
}

proof fn lemma_set_items_read(
    w: World,
    t: nat,
    v: (u16, u16),
    element_prop: u64,
    p: u64,
    size: usize,
    i: u64,
    n: i64,
    seen: Seq<ValueView>,
)
    requires
        crate::session::answers_all(w),
        crate::property_types::fields_have_kinds(w),
    ensures
        crate::session::read_or_broken(w, set_items(w, t, v, element_prop, p, size, i, n, seen)),
    decreases w.limit - t, 1int, 0int,
{
    let query = Query::EntryPresent { base: p, is_map: false, index: i };
    if i < n && t < w.limit {
        assert((w.answers)(t, query) is Ok);
        match w.flag(t, query) {
            (Ok(true), t1) => {
                let query = Query::EntryAddress { base: p, is_map: false, index: i, size };
                assert((w.answers)(t1, query) is Ok);
                if let (Ok(at), t2) = w.pointer(t1, query) {
                    values_can_be_read(w, t2, v, element_prop, at, 0);
                    if let (Ok(value), t3) = prop_value(w, t2, v, element_prop, at, 0) {
                        let more = match value {
                            Some(x) => crate::values::with_item(seen, x),
                            None => seen,
                        };
                        lemma_set_items_read(
                            w,
                            w.later(t2, t3),
                            v,
                            element_prop,
                            p,
                            size,
                            (i + 1) as u64,
                            n,
                            more,
                        );
                    }
                }
            },
            (Ok(false), t1) => {
                lemma_set_items_read(w, t1, v, element_prop, p, size, (i + 1) as u64, n, seen);
            },
            (Err(_), _) => {},
        }
    }
}

proof fn lemma_set_read(w: World, t: nat, v: (u16, u16), prop: u64, p: u64)
    requires
        crate::session::answers_all(w),
        crate::property_types::fields_have_kinds(w),
    ensures
        crate::session::read_or_broken(w, set_value(w, t, v, prop, p)),
    decreases w.limit - t, 5int, 0int,
{
    crate::session::questions_are_answered(w, t, prop);
    let a = w.pointer(t, Query::Pointer { base: prop, field: PointerField::SetElement });
    assert(crate::session::read_or_ran_out(w, a));
    crate::session::questions_are_answered(w, a.1, prop);
    let b = w.number(a.1, prop, NumberField::SetEntrySize);
    assert(crate::session::read_or_ran_out(w, b));
    crate::session::questions_are_answered(w, b.1, p);
    let c = w.number(b.1, p, NumberField::SetMaxIndex);
    assert(crate::session::read_or_ran_out(w, c));
    if a.0 is Ok && b.0 is Ok && c.0 is Ok {
        lemma_set_items_read(
            w,
            c.1,
            v,
            a.0->Ok_0,
            p,
            b.0->Ok_0 as usize,
            0,
            c.0->Ok_0,
            Seq::empty(),
        );
    }
}

proof fn lemma_struct_read(w: World, t: nat, v: (u16, u16), prop: u64, p: u64)
    requires
        crate::session::answers_all(w),
        crate::property_types::fields_have_kinds(w),
    ensures
        crate::session::read_or_broken(w, struct_value(w, t, v, prop, p)),
    decreases w.limit - t, 5int, 0int,
{
    crate::session::questions_are_answered(w, t, prop);
    let a = w.pointer(t, Query::Pointer { base: prop, field: PointerField::StructPropertyStruct });
    assert(crate::session::read_or_ran_out(w, a));
    if let (Ok(s), t1) = a {
        lemma_fields_read(w, t1, v, s, p, 0, Seq::empty());
    }
}

#[verifier::spinoff_prover]
#[verifier::rlimit(60)]
proof fn lemma_kind_read(
    w: World,
    t: nat,
    v: (u16, u16),
    prop: u64,
    p: u64,
    kind: CastFlag,
)
    requires
        crate::session::answers_all(w),
        crate::property_types::fields_have_kinds(w),
        exists|f: EClassCastFlags| value_flag(f) == Some(kind),
    ensures
        crate::session::read_or_broken(w, kind_value(w, t, v, prop, p, kind)),
    decreases w.limit - t, 6int, 0int,
{
    if no_value(kind) {
    } else if kind == CastFlag::FStructProperty {
        assert(kind_value(w, t, v, prop, p, kind) == struct_value(w, t, v, prop, p));
        lemma_struct_read(w, t, v, prop, p);
    } else if kind == CastFlag::FArrayProperty {
        assert(kind_value(w, t, v, prop, p, kind) == array_value(w, t, v, prop, p));
        lemma_array_read(w, t, v, prop, p);
    } else if kind == CastFlag::FEnumProperty {
        assert(kind_value(w, t, v, prop, p, kind) == enum_value(w, t, v, prop, p));
        lemma_enum_value_read(w, t, v, prop, p);
    } else if kind == CastFlag::FMapProperty {
        assert(kind_value(w, t, v, prop, p, kind) == map_value(w, t, v, prop, p));
        lemma_map_read(w, t, v, prop, p);
    } else if kind == CastFlag::FSetProperty {
        assert(kind_value(w, t, v, prop, p, kind) == set_value(w, t, v, prop, p));
        lemma_set_read(w, t, v, prop, p);
    } else if kind == CastFlag::FByteProperty {
        assert(kind_value(w, t, v, prop, p, kind) == byte_value(w, t, v, prop, p));
        lemma_byte_read(w, t, v, prop, p);
    } else if is_number_kind(kind) {
        assert(kind_value(w, t, v, prop, p, kind) == number_value(w, t, p, kind));
        lemma_number_read(w, t, p, kind);
    } else {
        lemma_simple_read(w, t, prop, p, kind);
    }
}

/// The value of a property of a target that answers all questions is read, whatever its kind,
/// unless no more questions may be asked or the target holds what readers do not count on: a place
/// beyond the address space, or an enum property without an enum or an integer under it.
pub proof fn values_can_be_read(
    w: World,
    t: nat,
    v: (u16, u16),
    prop: u64,
    base: u64,
    index: usize,
)
    requires
        crate::session::answers_all(w),
        crate::property_types::fields_have_kinds(w),
    ensures
        crate::session::read_or_broken(w, prop_value(w, t, v, prop, base, index)),
    decreases w.limit - t, 0int, 0int,
{
    crate::session::questions_are_answered(w, t, prop);
    let a = w.number(t, prop, NumberField::PropertyElementSize);
    assert(crate::session::read_or_ran_out(w, a));
    crate::session::questions_are_answered(w, a.1, prop);
    let b = w.number(a.1, prop, NumberField::PropertyOffset);
    assert(crate::session::read_or_ran_out(w, b));
    crate::session::questions_are_answered(w, b.1, prop);
    let c = w.cast_flags(b.1, Query::FieldCastFlags { base: prop });
    if a.0 is Ok && b.0 is Ok && c.0 is Ok {
        if let Some(p) = value_place(base, b.0->Ok_0 as usize, index, a.0->Ok_0 as usize) {
            let kind = value_flag(c.0->Ok_0)->0;
            assert(value_flag(c.0->Ok_0) is Some);
            lemma_kind_read(w, c.1, v, prop, p, kind);
        }
    }
}

proof fn lemma_dim_read(
    w: World,
    t: nat,
    v: (u16, u16),
    prop: u64,
    base: u64,
    i: usize,
    n: usize,
    seen: Option<Seq<ValueView>>,
)
    requires
        crate::session::answers_all(w),
        crate::property_types::fields_have_kinds(w),
    ensures
        crate::session::read_or_broken(w, dim_items(w, t, v, prop, base, i, n, seen)),
    decreases w.limit - t, 1int, n - i,
{
    if i < n {
        values_can_be_read(w, t, v, prop, base, i);
        if let (Ok(x), t1) = prop_value(w, t, v, prop, base, i) {
            let more = match (seen, x) {
                (Some(s), Some(x)) => Some(s.push(x)),
                _ => None,
            };
            lemma_dim_read(w, w.later(t, t1), v, prop, base, (i + 1) as usize, n, more);
        }
    }
}

proof fn lemma_fields_read(
    w: World,
    t: nat,
    v: (u16, u16),
    s: u64,
    base: u64,
    index: u64,
    seen: Seq<(Seq<char>, ValueView)>,
)
    requires
        crate::session::answers_all(w),
        crate::property_types::fields_have_kinds(w),
    ensures
        crate::session::read_or_broken(w, fields_of(w, t, v, s, base, index, seen)),
    decreases w.limit - t, 3int, 0int,
{
    let query = Query::StructProperty { base: s, inherited: true, index };
    if t < w.limit {
        assert((w.answers)(t, query) is Ok);
        if let (Ok(Some(prop)), t1) = w.optional(t, query) {
            crate::session::questions_are_answered(w, t1, prop);
            let a = w.number(t1, prop, NumberField::PropertyArrayDim);
            assert(crate::session::read_or_ran_out(w, a));
            crate::session::questions_are_answered(w, a.1, prop);
            let b = w.text(a.1, prop, TextField::FieldName);
            assert(crate::session::read_or_ran_out(w, b));
            if a.0 is Ok && b.0 is Ok {
                let dim = a.0->Ok_0 as usize;
                if dim == 1 {
                    values_can_be_read(w, b.1, v, prop, base, 0);
                } else {
                    lemma_dim_read(w, b.1, v, prop, base, 0, dim, Some(Seq::empty()));
                }
                let c = field_value(w, b.1, v, prop, base, dim);
                if let (Ok(value), t4) = c {
                    let more = match value {
                        Some(x) => crate::values::with_field(seen, b.0->Ok_0, x),
                        None => seen,
                    };
                    lemma_fields_read(
                        w,
                        w.later(b.1, t4),
                        v,
                        s,
                        base,
                        (index + 1) as u64,
                        more,
                    );
                }
            }
        }
    }
}

/// An object of a target that answers all questions is read, unless no more questions may be asked
/// or it holds what readers of values do not count on.
pub proof fn objects_can_be_read(w: World, t: nat, v: (u16, u16), obj: u64)
    requires
        crate::session::answers_all(w),
        crate::property_types::fields_have_kinds(w),
    ensures
        crate::session::read_or_broken(w, object_of(w, t, v, obj)),
    decreases w.limit - t, 5int, 0int,
{
    crate::property_types::lemma_target_path_read(w, t, obj, PointerField::ObjectOuter);
    let a = crate::property_types::optional_target_path(w, t, obj, PointerField::ObjectOuter);
    crate::session::questions_are_answered(w, a.1, obj);
    let b = w.pointer(a.1, Query::Pointer { base: obj, field: PointerField::ObjectClass });
    assert(crate::session::read_or_ran_out(w, b));
    if a.0 is Ok && b.0 is Ok {
        let class = b.0->Ok_0;
        crate::paths::paths_can_be_read(w, b.1, class);
        let c = crate::paths::path_of(w, b.1, class);
        if c.0 is Ok {
            let t4 = w.later(t, c.1);
            assert(object_of(w, t, v, obj) == object_fields(
                w,
                t4,
                v,
                obj,
                class,
                a.0->Ok_0,
                c.0->Ok_0,
            ));
            crate::session::questions_are_answered(w, t4, obj);
            let d = w.word(t4, obj, WordField::ObjectVtable);
            assert(crate::session::read_or_ran_out(w, d));
            crate::session::questions_are_answered(w, d.1, obj);
            let e = w.object_flags(d.1, obj);
            if d.0 is Ok && e.0 is Ok {
                lemma_fields_read(w, e.1, v, class, obj, 0, Seq::empty());
            }
        }
    }
}

/// An enum of a target that answers all questions is read, unless no more questions may be asked or
/// it holds what readers of values do not count on.
pub proof fn enums_can_be_read(w: World, t: nat, v: (u16, u16), e: u64)
    requires
        crate::session::answers_all(w),
        crate::property_types::fields_have_kinds(w),
    ensures
        crate::session::read_or_broken(w, enum_of(w, t, v, e)),
    decreases w.limit - t, 6int, 0int,
{
    crate::session::questions_are_answered(w, t, e);
    assert(crate::session::read_or_ran_out(w, w.byte(t, e, ByteField::EnumFlags)));
    let a = enum_flags_of(w, t, v, e);
    if a.0 is Ok {
        let t1 = w.later(t, a.1);
        objects_can_be_read(w, t1, v, e);
        let b = object_of(w, t1, v, e);
        if b.0 is Ok {
            assert(enum_of(w, t, v, e) == enum_rest(w, b.1, e, a.0->Ok_0, b.0->Ok_0));
            crate::session::questions_are_answered(w, b.1, e);
            let c = w.text(b.1, e, TextField::EnumCppType);
            assert(crate::session::read_or_ran_out(w, c));
            crate::session::questions_are_answered(w, c.1, e);
            let d = w.byte(c.1, e, ByteField::EnumCppForm);
            assert(crate::session::read_or_ran_out(w, d));
            crate::session::questions_are_answered(w, d.1, e);
        }
    }
}

} // verus!
