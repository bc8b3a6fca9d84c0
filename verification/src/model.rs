//! What a dump holds: objects, their properties and the values of these.

use vstd::prelude::*;

use crate::pathmap::PathMap;
use crate::pod::{Float32, Float64};

verus! {

/// The flags of a class or a field that say which kind it is of.
#[derive(Clone, Copy, PartialEq, Eq, Debug, Structural)]
pub enum CastFlag {
    UPackage,
    UClass,
    UFunction,
    UScriptStruct,
    UEnum,
    FProperty,
    FStructProperty,
    FStrProperty,
    FNameProperty,
    FTextProperty,
    FMulticastInlineDelegateProperty,
    FMulticastSparseDelegateProperty,
    FMulticastDelegateProperty,
    FDelegateProperty,
    FBoolProperty,
    FArrayProperty,
    FEnumProperty,
    FMapProperty,
    FSetProperty,
    FFloatProperty,
    FDoubleProperty,
    FByteProperty,
    FUInt16Property,
    FUInt32Property,
    FUInt64Property,
    FInt8Property,
    FInt16Property,
    FIntProperty,
    FInt64Property,
    FClassProperty,
    FObjectProperty,
    FSoftClassProperty,
    FSoftObjectProperty,
    FWeakObjectProperty,
    FLazyObjectProperty,
    FInterfaceProperty,
    FFieldPathProperty,
    FOptionalProperty,
    FUtf8StrProperty,
    FAnsiStrProperty,
}

/// A set of cast flags: the bits, and those of the flags that have a name here.
#[derive(Clone, PartialEq, Eq, Debug)]
pub struct EClassCastFlags {
    pub bits: u64,
    pub named: Vec<CastFlag>,
}

impl EClassCastFlags {
    /// Whether the flag is in the set.
    pub open spec fn has(&self, flag: CastFlag) -> bool {
        self.named@.contains(flag)
    }

    /// Tests whether the flag is in the set.
    pub fn contains(&self, flag: CastFlag) -> (r: bool)
        ensures
            r == self.has(flag),
    {
        let mut i: usize = 0;
        while i < self.named.len()
            invariant
                i <= self.named@.len(),
                forall|k: int| 0 <= k < i ==> self.named@[k] != flag,
            decreases self.named@.len() - i,
        {
            if self.named[i] == flag {
                return true;
            }
            i = i + 1;
        }
        false
    }
}

/// A set of cast flags has just those that are named in it.
pub proof fn flags_are_those_named(f: EClassCastFlags, flag: CastFlag)
    ensures
        f.has(flag) <==> exists|i: int| 0 <= i < f.named@.len() && #[trigger] f.named@[i] == flag,
{
    if f.has(flag) {
        let i = choose|i: int| 0 <= i < f.named@.len() && f.named@[i] == flag;
        assert(f.named@[i] == flag);
    }
}

/// The flags of an object: the bits, and the two that say it is no more than data.
#[derive(Clone, Copy, PartialEq, Eq, Debug, Structural)]
pub struct EObjectFlags {
    pub bits: u32,
    pub archetype_object: bool,
    pub class_default_object: bool,
}

/// The flags of a class.
#[derive(Clone, Copy, PartialEq, Eq, Debug, Structural)]
pub struct EClassFlags {
    pub bits: u32,
}

/// The flags of a function.
#[derive(Clone, Copy, PartialEq, Eq, Debug, Structural)]
pub struct EFunctionFlags {
    pub bits: u32,
}

/// The flags of a struct.
#[derive(Clone, Copy, PartialEq, Eq, Debug, Structural)]
pub struct EStructFlags {
    pub bits: u32,
}

/// The flags of a property.
#[derive(Clone, Copy, PartialEq, Eq, Debug, Structural)]
pub struct EPropertyFlags {
    pub bits: u64,
}

/// The flags of an enum.
#[derive(Clone, Copy, PartialEq, Eq, Debug, Structural)]
pub struct EEnumFlags {
    pub bits: u8,
}

/// How an enum is declared.
#[derive(Clone, Copy, PartialEq, Eq, Debug, Structural)]
pub struct ECppForm {
    pub discriminant: u8,
}

/// A property of a struct. `S` is the type of its texts.
#[derive(PartialEq, Debug)]
pub struct Property<S = String> {
    pub address: u64,
    pub name: S,
    pub offset: usize,
    pub array_dim: usize,
    pub size: usize,
    pub flags: EPropertyFlags,
    pub kind: PropertyType<S>,
}

/// The type of a property. `S` is the type of its texts.
#[derive(PartialEq, Debug)]
pub enum PropertyType<S = String> {
    Struct { struct_path: S },
    Str,
    Name,
    Text,
    MulticastInlineDelegate { signature_function: Option<S> },
    MulticastSparseDelegate { signature_function: Option<S> },
    MulticastDelegate { signature_function: Option<S> },
    Delegate { signature_function: Option<S> },
    Bool { field_size: u8, byte_offset: u8, byte_mask: u8, field_mask: u8 },
    Array { inner: Box<Property<S>> },
    Enum { container: Box<Property<S>>, enum_path: Option<S> },
    MapOf { key_prop: Box<Property<S>>, value_prop: Box<Property<S>> },
    SetOf { key_prop: Box<Property<S>> },
    Float,
    Double,
    Byte { enum_path: Option<S> },
    UInt16,
    UInt32,
    UInt64,
    Int8,
    Int16,
    Int,
    Int64,
    Class { property_class: S, meta_class: S },
    Object { property_class: S },
    SoftClass { property_class: S, meta_class: S },
    SoftObject { property_class: S },
    WeakObject { property_class: S },
    LazyObject { property_class: S },
    Interface { interface_class: S },
    FieldPath,
    Optional { inner: Box<Property<S>> },
    Utf8Str,
    AnsiStr,
}

impl DeepView for Property<String> {
    type V = Property<Seq<char>>;

    open spec fn deep_view(&self) -> Property<Seq<char>> {
        property_view(*self)
    }
}

/// A property with its texts as sequences.
pub open spec fn property_view(p: Property<String>) -> Property<Seq<char>>
    decreases p,
{
    Property {
        address: p.address,
        name: p.name@,
        offset: p.offset,
        array_dim: p.array_dim,
        size: p.size,
        flags: p.flags,
        kind: property_type_view(p.kind),
    }
}

/// A property type with its texts as sequences.
pub open spec fn property_type_view(t: PropertyType<String>) -> PropertyType<Seq<char>>
    decreases t,
{
    match t {
        PropertyType::Struct { struct_path } => PropertyType::Struct { struct_path: struct_path@ },
        PropertyType::Str => PropertyType::Str,
        PropertyType::Name => PropertyType::Name,
        PropertyType::Text => PropertyType::Text,
        PropertyType::MulticastInlineDelegate { signature_function } =>
            PropertyType::MulticastInlineDelegate {
                signature_function: signature_function.deep_view(),
            },
        PropertyType::MulticastSparseDelegate { signature_function } =>
            PropertyType::MulticastSparseDelegate {
                signature_function: signature_function.deep_view(),
            },
        PropertyType::MulticastDelegate { signature_function } =>
            PropertyType::MulticastDelegate { signature_function: signature_function.deep_view() },
        PropertyType::Delegate { signature_function } => PropertyType::Delegate {
            signature_function: signature_function.deep_view(),
        },
        PropertyType::Bool { field_size, byte_offset, byte_mask, field_mask } =>
            PropertyType::Bool { field_size, byte_offset, byte_mask, field_mask },
        PropertyType::Array { inner } => PropertyType::Array {
            inner: Box::new(property_view(*inner)),
        },
        PropertyType::Enum { container, enum_path } => PropertyType::Enum {
            container: Box::new(property_view(*container)),
            enum_path: enum_path.deep_view(),
        },
        PropertyType::MapOf { key_prop, value_prop } => PropertyType::MapOf {
            key_prop: Box::new(property_view(*key_prop)),
            value_prop: Box::new(property_view(*value_prop)),
        },
        PropertyType::SetOf { key_prop } => PropertyType::SetOf {
            key_prop: Box::new(property_view(*key_prop)),
        },
        PropertyType::Float => PropertyType::Float,
        PropertyType::Double => PropertyType::Double,
        PropertyType::Byte { enum_path } => PropertyType::Byte { enum_path: enum_path.deep_view() },
        PropertyType::UInt16 => PropertyType::UInt16,
        PropertyType::UInt32 => PropertyType::UInt32,
        PropertyType::UInt64 => PropertyType::UInt64,
        PropertyType::Int8 => PropertyType::Int8,
        PropertyType::Int16 => PropertyType::Int16,
        PropertyType::Int => PropertyType::Int,
        PropertyType::Int64 => PropertyType::Int64,
        PropertyType::Class { property_class, meta_class } => PropertyType::Class {
            property_class: property_class@,
            meta_class: meta_class@,
        },
        PropertyType::Object { property_class } => PropertyType::Object {
            property_class: property_class@,
        },
        PropertyType::SoftClass { property_class, meta_class } => PropertyType::SoftClass {
            property_class: property_class@,
            meta_class: meta_class@,
        },
        PropertyType::SoftObject { property_class } => PropertyType::SoftObject {
            property_class: property_class@,
        },
        PropertyType::WeakObject { property_class } => PropertyType::WeakObject {
            property_class: property_class@,
        },
        PropertyType::LazyObject { property_class } => PropertyType::LazyObject {
            property_class: property_class@,
        },
        PropertyType::Interface { interface_class } => PropertyType::Interface {
            interface_class: interface_class@,
        },
        PropertyType::FieldPath => PropertyType::FieldPath,
        PropertyType::Optional { inner } => PropertyType::Optional {
            inner: Box::new(property_view(*inner)),
        },
        PropertyType::Utf8Str => PropertyType::Utf8Str,
        PropertyType::AnsiStr => PropertyType::AnsiStr,
    }
}

impl DeepView for PropertyType<String> {
    type V = PropertyType<Seq<char>>;

    open spec fn deep_view(&self) -> PropertyType<Seq<char>> {
        property_type_view(*self)
    }
}

/// The value of an enum property: the name of the value, or the value where it has none.
#[derive(PartialEq, Debug)]
pub enum EnumPropertyValue<S = String> {
    Name(S),
    Value(i64),
}

/// The value of a byte property: the name of the value, or the value where it has none.
#[derive(PartialEq, Debug)]
pub enum BytePropertyValue<S = String> {
    Name(S),
    Value(u8),
}

/// The value of a property.
#[derive(Debug)]
pub enum PropertyValue {
    /// The fields by name, in the order in which they were first met; no name occurs twice.
    Struct(Vec<(String, PropertyValue)>),
    Str(String),
    Name(String),
    Bool(bool),
    Array(Vec<PropertyValue>),
    Enum(EnumPropertyValue),
    /// The pairs in the order of their keys; no key occurs twice.
    MapOf(Vec<(PropertyValue, PropertyValue)>),
    /// The elements in order; none occurs twice.
    SetOf(Vec<PropertyValue>),
    Float(Float32),
    Double(Float64),
    Byte(BytePropertyValue),
    UInt16(u16),
    UInt32(u32),
    UInt64(u64),
    Int8(i8),
    Int16(i16),
    Int(i32),
    Int64(i64),
    Object(Option<String>),
    Utf8Str(String),
}

/// A property value with its texts and lists as sequences.
pub enum ValueView {
    Struct(Seq<(Seq<char>, ValueView)>),
    Str(Seq<char>),
    Name(Seq<char>),
    Bool(bool),
    Array(Seq<ValueView>),
    Enum(EnumPropertyValue<Seq<char>>),
    MapOf(Seq<(ValueView, ValueView)>),
    SetOf(Seq<ValueView>),
    Float(Float32),
    Double(Float64),
    Byte(BytePropertyValue<Seq<char>>),
    UInt16(u16),
    UInt32(u32),
    UInt64(u64),
    Int8(i8),
    Int16(i16),
    Int(i32),
    Int64(i64),
    Object(Option<Seq<char>>),
    Utf8Str(Seq<char>),
}

/// A property value with its texts and lists as sequences.
pub open spec fn value_view(v: PropertyValue) -> ValueView
    decreases v,
{
    match v {
        PropertyValue::Struct(fields) => ValueView::Struct(
            Seq::new(
                fields@.len(),
                |i: int|
                    if 0 <= i < fields@.len() {
                        (fields@[i].0@, value_view(fields@[i].1))
                    } else {
                        arbitrary()
                    },
            ),
        ),
        PropertyValue::Str(s) => ValueView::Str(s@),
        PropertyValue::Name(s) => ValueView::Name(s@),
        PropertyValue::Bool(b) => ValueView::Bool(b),
        PropertyValue::Array(items) => ValueView::Array(
            Seq::new(
                items@.len(),
                |i: int|
                    if 0 <= i < items@.len() {
                        value_view(items@[i])
                    } else {
                        arbitrary()
                    },
            ),
        ),
        PropertyValue::Enum(e) => ValueView::Enum(
            match e {
                EnumPropertyValue::Name(s) => EnumPropertyValue::Name(s@),
                EnumPropertyValue::Value(n) => EnumPropertyValue::Value(n),
            },
        ),
        PropertyValue::MapOf(pairs) => ValueView::MapOf(
            Seq::new(
                pairs@.len(),
                |i: int|
                    if 0 <= i < pairs@.len() {
                        (value_view(pairs@[i].0), value_view(pairs@[i].1))
                    } else {
                        arbitrary()
                    },
            ),
        ),
        PropertyValue::SetOf(items) => ValueView::SetOf(
            Seq::new(
                items@.len(),
                |i: int|
                    if 0 <= i < items@.len() {
                        value_view(items@[i])
                    } else {
                        arbitrary()
                    },
            ),
        ),
        PropertyValue::Float(f) => ValueView::Float(f),
        PropertyValue::Double(f) => ValueView::Double(f),
        PropertyValue::Byte(b) => ValueView::Byte(
            match b {
                BytePropertyValue::Name(s) => BytePropertyValue::Name(s@),
                BytePropertyValue::Value(n) => BytePropertyValue::Value(n),
            },
        ),
        PropertyValue::UInt16(n) => ValueView::UInt16(n),
        PropertyValue::UInt32(n) => ValueView::UInt32(n),
        PropertyValue::UInt64(n) => ValueView::UInt64(n),
        PropertyValue::Int8(n) => ValueView::Int8(n),
        PropertyValue::Int16(n) => ValueView::Int16(n),
        PropertyValue::Int(n) => ValueView::Int(n),
        PropertyValue::Int64(n) => ValueView::Int64(n),
        PropertyValue::Object(o) => ValueView::Object(o.deep_view()),
        PropertyValue::Utf8Str(s) => ValueView::Utf8Str(s@),
    }
}

impl DeepView for PropertyValue {
    type V = ValueView;

    open spec fn deep_view(&self) -> ValueView {
        value_view(*self)
    }
}

/// The view of a list of fields, pairs or items is the list of the views.
pub proof fn value_view_of_lists(
    fields: Vec<(String, PropertyValue)>,
    pairs: Vec<(PropertyValue, PropertyValue)>,
    items: Vec<PropertyValue>,
)
    ensures
        PropertyValue::Struct(fields).deep_view() == ValueView::Struct(fields.deep_view()),
        PropertyValue::MapOf(pairs).deep_view() == ValueView::MapOf(pairs.deep_view()),
        PropertyValue::Array(items).deep_view() == ValueView::Array(items.deep_view()),
        PropertyValue::SetOf(items).deep_view() == ValueView::SetOf(items.deep_view()),
{
    assert(value_view(PropertyValue::Struct(fields))->Struct_0 =~= fields.deep_view());
    assert(value_view(PropertyValue::MapOf(pairs))->MapOf_0 =~= pairs.deep_view());
    assert(value_view(PropertyValue::Array(items))->Array_0 =~= items.deep_view());
    assert(value_view(PropertyValue::SetOf(items))->SetOf_0 =~= items.deep_view());
}

/// An object. The children are a set of paths.
#[derive(PartialEq, Debug)]
pub struct Object {
    pub address: u64,
    pub vtable: u64,
    pub object_flags: EObjectFlags,
    pub outer: Option<String>,
    pub class: String,
    pub children: PathMap<()>,
    pub property_values: Vec<(String, PropertyValue)>,
}

/// An object with its texts and lists as sequences.
pub struct ObjectView {
    pub address: u64,
    pub vtable: u64,
    pub object_flags: EObjectFlags,
    pub outer: Option<Seq<char>>,
    pub class: Seq<char>,
    pub children: Set<Seq<char>>,
    pub property_values: Seq<(Seq<char>, ValueView)>,
}

impl DeepView for Object {
    type V = ObjectView;

    open spec fn deep_view(&self) -> ObjectView {
        ObjectView {
            address: self.address,
            vtable: self.vtable,
            object_flags: self.object_flags,
            outer: self.outer.deep_view(),
            class: self.class@,
            children: self.children@.dom(),
            property_values: self.property_values.deep_view(),
        }
    }
}

/// An object that is a package.
#[derive(PartialEq, Debug)]
pub struct Package {
    pub object: Object,
}

/// A package with its texts and lists as sequences.
pub struct PackageView {
    pub object: ObjectView,
}

impl DeepView for Package {
    type V = PackageView;

    open spec fn deep_view(&self) -> PackageView {
        PackageView { object: self.object.deep_view() }
    }
}

/// An object that lists properties.
#[derive(PartialEq, Debug)]
pub struct Struct {
    pub object: Object,
    pub super_struct: Option<String>,
    pub properties: Vec<Property>,
    pub properties_size: usize,
    pub min_alignment: usize,
    pub script: Vec<u8>,
}

/// A struct with its texts and lists as sequences.
pub struct StructView {
    pub object: ObjectView,
    pub super_struct: Option<Seq<char>>,
    pub properties: Seq<Property<Seq<char>>>,
    pub properties_size: usize,
    pub min_alignment: usize,
    pub script: Seq<u8>,
}

impl DeepView for Struct {
    type V = StructView;

    open spec fn deep_view(&self) -> StructView {
        StructView {
            object: self.object.deep_view(),
            super_struct: self.super_struct.deep_view(),
            properties: self.properties.deep_view(),
            properties_size: self.properties_size,
            min_alignment: self.min_alignment,
            script: self.script@,
        }
    }
}

/// A struct that scripts know.
#[derive(PartialEq, Debug)]
pub struct ScriptStruct {
    pub struct_data: Struct,
    pub struct_flags: EStructFlags,
}

/// A struct that scripts know with its texts and lists as sequences.
pub struct ScriptStructView {
    pub struct_data: StructView,
    pub struct_flags: EStructFlags,
}

impl DeepView for ScriptStruct {
    type V = ScriptStructView;

    open spec fn deep_view(&self) -> ScriptStructView {
        ScriptStructView {
            struct_data: self.struct_data.deep_view(),
            struct_flags: self.struct_flags,
        }
    }
}

/// An interface that a class implements. `S` is the type of its text.
#[derive(PartialEq, Debug)]
pub struct ImplementedInterface<S = String> {
    pub class: Option<S>,
    pub pointer_offset: i32,
    pub implemented_by_k2: bool,
}

impl DeepView for ImplementedInterface<String> {
    type V = ImplementedInterface<Seq<char>>;

    open spec fn deep_view(&self) -> ImplementedInterface<Seq<char>> {
        ImplementedInterface {
            class: self.class.deep_view(),
            pointer_offset: self.pointer_offset,
            implemented_by_k2: self.implemented_by_k2,
        }
    }
}

/// A class.
#[derive(PartialEq, Debug)]
pub struct Class {
    pub struct_data: Struct,
    pub class_flags: EClassFlags,
    pub class_cast_flags: EClassCastFlags,
    pub class_default_object: Option<String>,
    pub instance_vtable: Option<u64>,
    pub interfaces: Vec<ImplementedInterface>,
}

/// A class with its texts and lists as sequences.
pub struct ClassView {
    pub struct_data: StructView,
    pub class_flags: EClassFlags,
    pub class_cast_flags: EClassCastFlags,
    pub class_default_object: Option<Seq<char>>,
    pub instance_vtable: Option<u64>,
    pub interfaces: Seq<ImplementedInterface<Seq<char>>>,
}

impl DeepView for Class {
    type V = ClassView;

    open spec fn deep_view(&self) -> ClassView {
        ClassView {
            struct_data: self.struct_data.deep_view(),
            class_flags: self.class_flags,
            class_cast_flags: self.class_cast_flags,
            class_default_object: self.class_default_object.deep_view(),
            instance_vtable: self.instance_vtable,
            interfaces: self.interfaces.deep_view(),
        }
    }
}

/// A function.
#[derive(PartialEq, Debug)]
pub struct Function {
    pub struct_data: Struct,
    pub function_flags: EFunctionFlags,
    pub func: u64,
}

/// A function with its texts and lists as sequences.
pub struct FunctionView {
    pub struct_data: StructView,
    pub function_flags: EFunctionFlags,
    pub func: u64,
}

impl DeepView for Function {
    type V = FunctionView;

    open spec fn deep_view(&self) -> FunctionView {
        FunctionView {
            struct_data: self.struct_data.deep_view(),
            function_flags: self.function_flags,
            func: self.func,
        }
    }
}

/// An enum.
#[derive(PartialEq, Debug)]
pub struct Enum {
    pub object: Object,
    pub cpp_type: String,
    pub cpp_form: ECppForm,
    pub enum_flags: Option<EEnumFlags>,
    pub names: Vec<(String, i64)>,
}

/// An enum with its texts and lists as sequences.
pub struct EnumView {
    pub object: ObjectView,
    pub cpp_type: Seq<char>,
    pub cpp_form: ECppForm,
    pub enum_flags: Option<EEnumFlags>,
    pub names: Seq<(Seq<char>, i64)>,
}

impl DeepView for Enum {
    type V = EnumView;

    open spec fn deep_view(&self) -> EnumView {
        EnumView {
            object: self.object.deep_view(),
            cpp_type: self.cpp_type@,
            cpp_form: self.cpp_form,
            enum_flags: self.enum_flags,
            names: self.names.deep_view(),
        }
    }
}

/// An object of some kind.
#[derive(PartialEq, Debug)]
pub enum ObjectType {
    Object(Object),
    Package(Package),
    Enum(Enum),
    ScriptStruct(ScriptStruct),
    Class(Class),
    Function(Function),
}

/// An object of some kind with its texts and lists as sequences.
pub enum ObjectTypeView {
    Object(ObjectView),
    Package(PackageView),
    Enum(EnumView),
    ScriptStruct(ScriptStructView),
    Class(ClassView),
    Function(FunctionView),
}

impl DeepView for ObjectType {
    type V = ObjectTypeView;

    open spec fn deep_view(&self) -> ObjectTypeView {
        match *self {
            ObjectType::Object(o) => ObjectTypeView::Object(o.deep_view()),
            ObjectType::Package(o) => ObjectTypeView::Package(o.deep_view()),
            ObjectType::Enum(o) => ObjectTypeView::Enum(o.deep_view()),
            ObjectType::ScriptStruct(o) => ObjectTypeView::ScriptStruct(o.deep_view()),
            ObjectType::Class(o) => ObjectTypeView::Class(o.deep_view()),
            ObjectType::Function(o) => ObjectTypeView::Function(o.deep_view()),
        }
    }
}

impl ObjectTypeView {
    /// What every kind of object has.
    pub open spec fn object(self) -> ObjectView {
        match self {
            ObjectTypeView::Object(o) => o,
            ObjectTypeView::Package(o) => o.object,
            ObjectTypeView::Enum(o) => o.object,
            ObjectTypeView::ScriptStruct(o) => o.struct_data.object,
            ObjectTypeView::Class(o) => o.struct_data.object,
            ObjectTypeView::Function(o) => o.struct_data.object,
        }
    }

    /// The same with other data in place of what every kind of object has.
    pub open spec fn with_object(self, object: ObjectView) -> ObjectTypeView {
        match self {
            ObjectTypeView::Object(_) => ObjectTypeView::Object(object),
            ObjectTypeView::Package(_) => ObjectTypeView::Package(PackageView { object }),
            ObjectTypeView::Enum(o) => ObjectTypeView::Enum(EnumView { object, ..o }),
            ObjectTypeView::ScriptStruct(o) => ObjectTypeView::ScriptStruct(
                ScriptStructView {
                    struct_data: StructView { object, ..o.struct_data },
                    struct_flags: o.struct_flags,
                },
            ),
            ObjectTypeView::Class(o) => ObjectTypeView::Class(
                ClassView { struct_data: StructView { object, ..o.struct_data }, ..o },
            ),
            ObjectTypeView::Function(o) => ObjectTypeView::Function(
                FunctionView {
                    struct_data: StructView { object, ..o.struct_data },
                    function_flags: o.function_flags,
                    func: o.func,
                },
            ),
        }
    }
}

impl ObjectType {
    /// What every kind of object has.
    pub fn get_object(&self) -> (r: &Object)
        ensures
            r.deep_view() == self.deep_view().object(),
    {
        match self {
            ObjectType::Object(o) => o,
            ObjectType::Package(o) => &o.object,
            ObjectType::Enum(o) => &o.object,
            ObjectType::ScriptStruct(o) => &o.struct_data.object,
            ObjectType::Class(o) => &o.struct_data.object,
            ObjectType::Function(o) => &o.struct_data.object,
        }
    }

    /// Replaces the children.
    pub fn set_children(&mut self, children: PathMap<()>)
        ensures
            final(self).deep_view() == old(self).deep_view().with_object(
                ObjectView { children: children@.dom(), ..old(self).deep_view().object() },
            ),
    {
        match self {
            ObjectType::Object(o) => {
                o.children = children;
            },
            ObjectType::Package(o) => {
                o.object.children = children;
            },
            ObjectType::Enum(o) => {
                o.object.children = children;
            },
            ObjectType::ScriptStruct(o) => {
                o.struct_data.object.children = children;
            },
            ObjectType::Class(o) => {
                o.struct_data.object.children = children;
            },
            ObjectType::Function(o) => {
                o.struct_data.object.children = children;
            },
        }
    }
}

/// Whether `seen` is the text in `held`, where there is one.
pub open spec fn shows_text(held: Option<String>, seen: Option<Seq<char>>) -> bool {
    match (held, seen) {
        (Some(a), Some(b)) => b == a@,
        (None, None) => true,
        _ => false,
    }
}

/// Whether `seen` has what the property has under each name.
pub open spec fn shows_property(held: Property<String>, seen: Property<Seq<char>>) -> bool
    decreases held,
{
    &&& seen.address == held.address && seen.name == held.name@
    &&& seen.offset == held.offset && seen.array_dim == held.array_dim
    &&& seen.size == held.size && seen.flags == held.flags
    &&& shows_property_type(held.kind, seen.kind)
}

/// Whether `seen` is the same type with the same texts under each name.
pub open spec fn shows_property_type(
    held: PropertyType<String>,
    seen: PropertyType<Seq<char>>,
) -> bool
    decreases held,
{
    match (held, seen) {
        (
            PropertyType::Struct { struct_path: a },
            PropertyType::Struct { struct_path: b },
        ) => b == a@,
        (PropertyType::Str, PropertyType::Str) => true,
        (PropertyType::Name, PropertyType::Name) => true,
        (PropertyType::Text, PropertyType::Text) => true,
        (
            PropertyType::MulticastInlineDelegate { signature_function: a },
            PropertyType::MulticastInlineDelegate { signature_function: b },
        ) => shows_text(a, b),
        (
            PropertyType::MulticastSparseDelegate { signature_function: a },
            PropertyType::MulticastSparseDelegate { signature_function: b },
        ) => shows_text(a, b),
        (
            PropertyType::MulticastDelegate { signature_function: a },
            PropertyType::MulticastDelegate { signature_function: b },
        ) => shows_text(a, b),
        (
            PropertyType::Delegate { signature_function: a },
            PropertyType::Delegate { signature_function: b },
        ) => shows_text(a, b),
        (
            PropertyType::Bool { field_size: a, byte_offset: c, byte_mask: e, field_mask: g },
            PropertyType::Bool { field_size: b, byte_offset: d, byte_mask: f, field_mask: h },
        ) => a == b && c == d && e == f && g == h,
        (
            PropertyType::Array { inner: a },
            PropertyType::Array { inner: b },
        ) => shows_property(*a, *b),
        (
            PropertyType::Enum { container: a, enum_path: c },
            PropertyType::Enum { container: b, enum_path: d },
        ) => shows_property(*a, *b) && shows_text(c, d),
        (
            PropertyType::MapOf { key_prop: a, value_prop: c },
            PropertyType::MapOf { key_prop: b, value_prop: d },
        ) => shows_property(*a, *b) && shows_property(*c, *d),
        (
            PropertyType::SetOf { key_prop: a },
            PropertyType::SetOf { key_prop: b },
        ) => shows_property(*a, *b),
        (PropertyType::Float, PropertyType::Float) => true,
        (PropertyType::Double, PropertyType::Double) => true,
        (
            PropertyType::Byte { enum_path: a },
            PropertyType::Byte { enum_path: b },
        ) => shows_text(a, b),
        (PropertyType::UInt16, PropertyType::UInt16) => true,
        (PropertyType::UInt32, PropertyType::UInt32) => true,
        (PropertyType::UInt64, PropertyType::UInt64) => true,
        (PropertyType::Int8, PropertyType::Int8) => true,
        (PropertyType::Int16, PropertyType::Int16) => true,
        (PropertyType::Int, PropertyType::Int) => true,
        (PropertyType::Int64, PropertyType::Int64) => true,
        (
            PropertyType::Class { property_class: a, meta_class: c },
            PropertyType::Class { property_class: b, meta_class: d },
        ) => b == a@ && d == c@,
        (
            PropertyType::Object { property_class: a },
            PropertyType::Object { property_class: b },
        ) => b == a@,
        (
            PropertyType::SoftClass { property_class: a, meta_class: c },
            PropertyType::SoftClass { property_class: b, meta_class: d },
        ) => b == a@ && d == c@,
        (
            PropertyType::SoftObject { property_class: a },
            PropertyType::SoftObject { property_class: b },
        ) => b == a@,
        (
            PropertyType::WeakObject { property_class: a },
            PropertyType::WeakObject { property_class: b },
        ) => b == a@,
        (
            PropertyType::LazyObject { property_class: a },
            PropertyType::LazyObject { property_class: b },
        ) => b == a@,
        (
            PropertyType::Interface { interface_class: a },
            PropertyType::Interface { interface_class: b },
        ) => b == a@,
        (PropertyType::FieldPath, PropertyType::FieldPath) => true,
        (
            PropertyType::Optional { inner: a },
            PropertyType::Optional { inner: b },
        ) => shows_property(*a, *b),
        (PropertyType::Utf8Str, PropertyType::Utf8Str) => true,
        (PropertyType::AnsiStr, PropertyType::AnsiStr) => true,
        _ => false,
    }
}

/// The view of a property has what the property has, under the same names.
pub proof fn property_views_show_what_is_held(p: Property<String>)
    ensures
        shows_property(p, p.deep_view()),
    decreases p,
{
    property_type_views_show_what_is_held(p.kind);
}

/// The view of a property type is the same type with the same texts, under the same names.
pub proof fn property_type_views_show_what_is_held(t: PropertyType<String>)
    ensures
        shows_property_type(t, t.deep_view()),
    decreases t,
{
    match t {
        PropertyType::Array { inner } => property_views_show_what_is_held(*inner),
        PropertyType::Enum { container, .. } => property_views_show_what_is_held(*container),
        PropertyType::MapOf { key_prop, value_prop } => {
            property_views_show_what_is_held(*key_prop);
            property_views_show_what_is_held(*value_prop);
        },
        PropertyType::SetOf { key_prop } => property_views_show_what_is_held(*key_prop),
        PropertyType::Optional { inner } => property_views_show_what_is_held(*inner),
        _ => {},
    }
}

/// Whether `seen` is the same kind of value with the same texts, numbers and parts.
pub open spec fn shows_value(held: PropertyValue, seen: ValueView) -> bool {
    match (held, seen) {
        (PropertyValue::Struct(a), ValueView::Struct(b)) => b.len() == a@.len() && forall|i: int|
            0 <= i < b.len() ==> (#[trigger] b[i]).0 == a@[i].0@ && b[i].1 == a@[i].1.deep_view(),
        (PropertyValue::Array(a), ValueView::Array(b)) => b.len() == a@.len() && forall|i: int|
            0 <= i < b.len() ==> #[trigger] b[i] == a@[i].deep_view(),
        (PropertyValue::SetOf(a), ValueView::SetOf(b)) => b.len() == a@.len() && forall|i: int|
            0 <= i < b.len() ==> #[trigger] b[i] == a@[i].deep_view(),
        (PropertyValue::MapOf(a), ValueView::MapOf(b)) => b.len() == a@.len() && forall|i: int|
            0 <= i < b.len() ==> (#[trigger] b[i]).0 == a@[i].0.deep_view() && b[i].1
                == a@[i].1.deep_view(),
        (PropertyValue::Str(a), ValueView::Str(b)) => b == a@,
        (PropertyValue::Name(a), ValueView::Name(b)) => b == a@,
        (PropertyValue::Utf8Str(a), ValueView::Utf8Str(b)) => b == a@,
        (PropertyValue::Bool(a), ValueView::Bool(b)) => b == a,
        (PropertyValue::Enum(a), ValueView::Enum(b)) => match (a, b) {
            (EnumPropertyValue::Name(x), EnumPropertyValue::Name(y)) => y == x@,
            (EnumPropertyValue::Value(x), EnumPropertyValue::Value(y)) => y == x,
            _ => false,
        },
        (PropertyValue::Byte(a), ValueView::Byte(b)) => match (a, b) {
            (BytePropertyValue::Name(x), BytePropertyValue::Name(y)) => y == x@,
            (BytePropertyValue::Value(x), BytePropertyValue::Value(y)) => y == x,
            _ => false,
        },
        (PropertyValue::Float(a), ValueView::Float(b)) => b == a,
        (PropertyValue::Double(a), ValueView::Double(b)) => b == a,
        (PropertyValue::UInt16(a), ValueView::UInt16(b)) => b == a,
        (PropertyValue::UInt32(a), ValueView::UInt32(b)) => b == a,
        (PropertyValue::UInt64(a), ValueView::UInt64(b)) => b == a,
        (PropertyValue::Int8(a), ValueView::Int8(b)) => b == a,
        (PropertyValue::Int16(a), ValueView::Int16(b)) => b == a,
        (PropertyValue::Int(a), ValueView::Int(b)) => b == a,
        (PropertyValue::Int64(a), ValueView::Int64(b)) => b == a,
        (PropertyValue::Object(a), ValueView::Object(b)) => shows_text(a, b),
        _ => false,
    }
}

/// The view of a value is the same kind of value with the same texts, numbers and parts.
pub proof fn value_views_show_what_is_held(v: PropertyValue)
    ensures
        shows_value(v, v.deep_view()),
{
}

/// Whether `seen` has what the object has under each name: the children by their paths, and the
/// values in their order.
pub open spec fn shows_object(held: Object, seen: ObjectView) -> bool {
    &&& seen.address == held.address && seen.vtable == held.vtable
    &&& seen.object_flags == held.object_flags && shows_text(held.outer, seen.outer)
    &&& seen.class == held.class@
    &&& forall|path: Seq<char>| #[trigger]
        seen.children.contains(path) <==> held.children@.dom().contains(path)
    &&& seen.property_values.len() == held.property_values@.len()
    &&& forall|i: int|
        0 <= i < seen.property_values.len() ==> (#[trigger] seen.property_values[i]).0
            == held.property_values@[i].0@ && seen.property_values[i].1
            == held.property_values@[i].1.deep_view()
}

/// Whether `seen` has what the struct has under each name.
pub open spec fn shows_struct(held: Struct, seen: StructView) -> bool {
    &&& shows_object(held.object, seen.object) && shows_text(held.super_struct, seen.super_struct)
    &&& seen.properties_size == held.properties_size && seen.min_alignment == held.min_alignment
    &&& seen.script == held.script@ && seen.properties.len() == held.properties@.len()
    &&& forall|i: int|
        0 <= i < seen.properties.len() ==> #[trigger] seen.properties[i]
            == held.properties@[i].deep_view()
}

/// Whether `seen` has what the interface has under each name.
pub open spec fn shows_interface(
    held: ImplementedInterface<String>,
    seen: ImplementedInterface<Seq<char>>,
) -> bool {
    &&& shows_text(held.class, seen.class) && seen.pointer_offset == held.pointer_offset
    &&& seen.implemented_by_k2 == held.implemented_by_k2
}

/// The view of an object of some kind is an object of that kind with what the object has, under the
/// same names.
pub proof fn object_views_show_what_is_held(o: ObjectType)
    ensures
        match (o, o.deep_view()) {
            (ObjectType::Object(held), ObjectTypeView::Object(seen)) => shows_object(held, seen),
            (ObjectType::Package(held), ObjectTypeView::Package(seen)) => shows_object(
                held.object,
                seen.object,
            ),
            (ObjectType::Enum(held), ObjectTypeView::Enum(seen)) => {
                &&& shows_object(held.object, seen.object) && seen.cpp_type == held.cpp_type@
                &&& seen.cpp_form == held.cpp_form && seen.enum_flags == held.enum_flags
                &&& seen.names.len() == held.names@.len()
                &&& forall|i: int|
                    0 <= i < seen.names.len() ==> (#[trigger] seen.names[i]).0
                        == held.names@[i].0@ && seen.names[i].1 == held.names@[i].1
            },
            (ObjectType::ScriptStruct(held), ObjectTypeView::ScriptStruct(seen)) => {
                &&& shows_struct(held.struct_data, seen.struct_data)
                &&& seen.struct_flags == held.struct_flags
            },
            (ObjectType::Class(held), ObjectTypeView::Class(seen)) => {
                &&& shows_struct(held.struct_data, seen.struct_data)
                &&& seen.class_flags == held.class_flags
                &&& seen.class_cast_flags == held.class_cast_flags
                &&& shows_text(held.class_default_object, seen.class_default_object)
                &&& seen.instance_vtable == held.instance_vtable
                &&& seen.interfaces.len() == held.interfaces@.len()
                &&& forall|i: int|
                    0 <= i < seen.interfaces.len() ==> shows_interface(
                        held.interfaces@[i],
                        #[trigger] seen.interfaces[i],
                    )
            },
            (ObjectType::Function(held), ObjectTypeView::Function(seen)) => {
                &&& shows_struct(held.struct_data, seen.struct_data)
                &&& seen.function_flags == held.function_flags && seen.func == held.func
            },
            _ => false,
        },
{
}

/// What every kind of object has can be exchanged without a change of the rest: what is put in is
/// there, what was there can be put back, and only what is put in last counts.
pub proof fn object_data_can_be_exchanged(v: ObjectTypeView, a: ObjectView, b: ObjectView)
    ensures
        v.with_object(a).object() == a,
        v.with_object(v.object()) == v,
        v.with_object(a).with_object(b) == v.with_object(b),
{
}

} // verus!
