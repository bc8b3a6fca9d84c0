//! Objects by kind: packages, enums, structs, classes and functions.

use vstd::prelude::*;

use crate::config::DumpOptions;
use crate::mem::Ptr;
use crate::model::{
    CastFlag, Class, ClassView, EClassCastFlags, EClassFlags, EFunctionFlags, EObjectFlags,
    EStructFlags, Function, FunctionView, ImplementedInterface, ObjectType, ObjectTypeView,
    ObjectView, Package, PackageView, Property, ScriptStruct, ScriptStructView, Struct, StructView,
};
use crate::objects::{UClass, UFunction, UObject, UScriptStruct, UStruct, ZProperty};
use crate::paths::opt_path;
use crate::property_types::{read_optional_target_path, read_prop_type};
use crate::property_values::{read_enum, read_object};
use crate::session::{
    Engine, InterfaceEntry, NumberField, PointerField, Query, ReadError, Session, WordField, World,
};
use crate::text::starts_with;

verus! {

broadcast use crate::session::group_traces;

/// The properties of the struct `s` itself from position `index` on, behind `seen`. What is no
/// property is left out.
pub open spec fn properties_of(
    w: World,
    t: nat,
    s: u64,
    index: u64,
    seen: Seq<Property<Seq<char>>>,
) -> (Result<Seq<Property<Seq<char>>>, ReadError>, nat)
    decreases w.limit - t,
{
    match w.optional(t, Query::StructProperty { base: s, inherited: false, index }) {
        (Ok(Some(prop)), t1) => match w.cast_flags(t1, Query::FieldCastFlags { base: prop }) {
            (Ok(f), t2) => if f.has(CastFlag::FProperty) {
                match crate::property_types::property_of(w, t2, prop) {
                    (Ok(p), t3) => properties_of(
                        w,
                        w.later(t2, t3),
                        s,
                        (index + 1) as u64,
                        seen.push(p),
                    ),
                    (Err(e), t3) => (Err(e), t3),
                }
            } else {
                properties_of(w, t2, s, (index + 1) as u64, seen)
            },
            (Err(e), t2) => (Err(e), t2),
        },
        (Ok(None), t1) => (Ok(seen), t1),
        (Err(e), t1) => (Err(e), t1),
    }
}

/// What a struct has besides its properties, its base and what every object has.
pub open spec fn struct_rest(
    w: World,
    t: nat,
    s: u64,
    properties: Seq<Property<Seq<char>>>,
    super_struct: Option<Seq<char>>,
    object: ObjectView,
) -> (Result<StructView, ReadError>, nat) {
    match w.number(t, s, NumberField::StructPropertiesSize) {
        (Ok(size), t1) => match w.number(t1, s, NumberField::StructMinAlignment) {
            (Ok(alignment), t2) => match w.bytes(t2, Query::Script { base: s }) {
                (Ok(script), t3) => (
                    Ok(
                        StructView {
                            object,
                            super_struct,
                            properties,
                            properties_size: size as usize,
                            min_alignment: alignment as usize,
                            script,
                        },
                    ),
                    t3,
                ),
                (Err(e), t3) => (Err(e), t3),
            },
            (Err(e), t2) => (Err(e), t2),
        },
        (Err(e), t1) => (Err(e), t1),
    }
}

/// A struct: what every object has, its base, its properties, its size and its script.
pub open spec fn struct_of(w: World, t: nat, v: (u16, u16), s: u64) -> (
    Result<StructView, ReadError>,
    nat,
) {
    match properties_of(w, t, s, 0, Seq::empty()) {
        (Ok(properties), t1) => match crate::property_types::optional_target_path(
            w,
            t1,
            s,
            PointerField::StructSuper,
        ) {
            (Ok(super_struct), t2) => match crate::property_values::object_of(w, t2, v, s) {
                (Ok(object), t3) => struct_rest(w, t3, s, properties, super_struct, object),
                (Err(e), t3) => (Err(e), t3),
            },
            (Err(e), t2) => (Err(e), t2),
        },
        (Err(e), t1) => (Err(e), t1),
    }
}

/// A struct that scripts know.
pub open spec fn script_struct_of(w: World, t: nat, v: (u16, u16), s: u64) -> (
    Result<ScriptStructView, ReadError>,
    nat,
) {
    match struct_of(w, t, v, s) {
        (Ok(struct_data), t1) => match w.word(t1, s, WordField::StructFlags) {
            (Ok(bits), t2) => (
                Ok(
                    ScriptStructView {
                        struct_data,
                        struct_flags: EStructFlags { bits: bits as u32 },
                    },
                ),
                t2,
            ),
            (Err(e), t2) => (Err(e), t2),
        },
        (Err(e), t1) => (Err(e), t1),
    }
}

/// The interfaces from position `i` on, behind `seen`.
pub open spec fn interfaces_of(
    w: World,
    t: nat,
    entries: Seq<InterfaceEntry>,
    i: int,
    seen: Seq<ImplementedInterface<Seq<char>>>,
) -> (Result<Seq<ImplementedInterface<Seq<char>>>, ReadError>, nat)
    decreases entries.len() - i,
{
    if i >= entries.len() {
        (Ok(seen), t)
    } else {
        match crate::paths::optional_path_of(
            w,
            t,
            if entries[i].class == 0 {
                None
            } else {
                Some(entries[i].class)
            },
        ) {
            (Ok(class), t1) => interfaces_of(
                w,
                t1,
                entries,
                i + 1,
                seen.push(
                    ImplementedInterface {
                        class,
                        pointer_offset: entries[i].pointer_offset,
                        implemented_by_k2: entries[i].implemented_by_k2,
                    },
                ),
            ),
            (Err(e), t1) => (Err(e), t1),
        }
    }
}

/// A class whose flags and default object are known.
pub open spec fn class_rest(
    w: World,
    t: nat,
    v: (u16, u16),
    c: u64,
    class_flags: EClassFlags,
    class_cast_flags: EClassCastFlags,
    class_default_object: Option<Seq<char>>,
) -> (Result<ClassView, ReadError>, nat) {
    match w.interfaces(t, c) {
        (Ok(entries), t1) => match interfaces_of(w, t1, entries, 0, Seq::empty()) {
            (Ok(interfaces), t2) => match struct_of(w, t2, v, c) {
                (Ok(struct_data), t3) => (
                    Ok(
                        ClassView {
                            struct_data,
                            class_flags,
                            class_cast_flags,
                            class_default_object,
                            instance_vtable: None,
                            interfaces,
                        },
                    ),
                    t3,
                ),
                (Err(e), t3) => (Err(e), t3),
            },
            (Err(e), t2) => (Err(e), t2),
        },
        (Err(e), t1) => (Err(e), t1),
    }
}

/// A class: its flags, its default object, its interfaces and what every struct has.
pub open spec fn class_of(w: World, t: nat, v: (u16, u16), c: u64) -> (
    Result<ClassView, ReadError>,
    nat,
) {
    match w.word(t, c, WordField::ClassFlags) {
        (Ok(bits), t1) => match w.cast_flags(t1, Query::ClassCastFlags { base: c }) {
            (Ok(f), t2) => match crate::property_types::optional_target_path(
                w,
                t2,
                c,
                PointerField::ClassDefaultObject,
            ) {
                (Ok(object), t3) => class_rest(
                    w,
                    t3,
                    v,
                    c,
                    EClassFlags { bits: bits as u32 },
                    f,
                    object,
                ),
                (Err(e), t3) => (Err(e), t3),
            },
            (Err(e), t2) => (Err(e), t2),
        },
        (Err(e), t1) => (Err(e), t1),
    }
}

/// A function: what every struct has, its flags and the address of its code.
pub open spec fn function_of(w: World, t: nat, v: (u16, u16), f: u64) -> (
    Result<FunctionView, ReadError>,
    nat,
) {
    match w.word(t, f, WordField::FunctionFlags) {
        (Ok(bits), t1) => match struct_of(w, t1, v, f) {
            (Ok(struct_data), t2) => match w.word(t2, f, WordField::FunctionFunc) {
                (Ok(func), t3) => (
                    Ok(
                        FunctionView {
                            struct_data,
                            function_flags: EFunctionFlags { bits: bits as u32 },
                            func,
                        },
                    ),
                    t3,
                ),
                (Err(e), t3) => (Err(e), t3),
            },
            (Err(e), t2) => (Err(e), t2),
        },
        (Err(e), t1) => (Err(e), t1),
    }
}

/// What an object is dumped as.
#[derive(Clone, Copy, PartialEq, Eq, Debug, Structural)]
pub enum ObjectKind {
    Class,
    Function,
    ScriptStruct,
    Enum,
    Package,
    Object,
}

/// The kind of an object by its flags and the cast flags of its class. An archetype or a default
/// object is no more than an object; else the first kind counts that the cast flags name.
pub open spec fn object_kind(flags: EObjectFlags, f: EClassCastFlags) -> ObjectKind {
    if flags.archetype_object || flags.class_default_object {
        ObjectKind::Object
    } else if f.has(CastFlag::UClass) {
        ObjectKind::Class
    } else if f.has(CastFlag::UFunction) {
        ObjectKind::Function
    } else if f.has(CastFlag::UScriptStruct) {
        ObjectKind::ScriptStruct
    } else if f.has(CastFlag::UEnum) {
        ObjectKind::Enum
    } else if f.has(CastFlag::UPackage) {
        ObjectKind::Package
    } else {
        ObjectKind::Object
    }
}

/// Picks the kind of an object.
pub fn pick_object_kind(flags: EObjectFlags, f: &EClassCastFlags) -> (r: ObjectKind)
    ensures
        r == object_kind(flags, *f),
{
    if flags.archetype_object || flags.class_default_object {
        ObjectKind::Object
    } else if f.contains(CastFlag::UClass) {
        ObjectKind::Class
    } else if f.contains(CastFlag::UFunction) {
        ObjectKind::Function
    } else if f.contains(CastFlag::UScriptStruct) {
        ObjectKind::ScriptStruct
    } else if f.contains(CastFlag::UEnum) {
        ObjectKind::Enum
    } else if f.contains(CastFlag::UPackage) {
        ObjectKind::Package
    } else {
        ObjectKind::Object
    }
}

/// An object of that kind.
pub open spec fn kind_of(w: World, t: nat, v: (u16, u16), obj: u64, kind: ObjectKind) -> (
    Result<ObjectTypeView, ReadError>,
    nat,
) {
    match kind {
        ObjectKind::Class => match class_of(w, t, v, obj) {
            (Ok(x), t1) => (Ok(ObjectTypeView::Class(x)), t1),
            (Err(e), t1) => (Err(e), t1),
        },
        ObjectKind::Function => match function_of(w, t, v, obj) {
            (Ok(x), t1) => (Ok(ObjectTypeView::Function(x)), t1),
            (Err(e), t1) => (Err(e), t1),
        },
        ObjectKind::ScriptStruct => match script_struct_of(w, t, v, obj) {
            (Ok(x), t1) => (Ok(ObjectTypeView::ScriptStruct(x)), t1),
            (Err(e), t1) => (Err(e), t1),
        },
        ObjectKind::Enum => match crate::property_values::enum_of(w, t, v, obj) {
            (Ok(x), t1) => (Ok(ObjectTypeView::Enum(x)), t1),
            (Err(e), t1) => (Err(e), t1),
        },
        ObjectKind::Package => match crate::property_values::object_of(w, t, v, obj) {
            (Ok(x), t1) => (Ok(ObjectTypeView::Package(PackageView { object: x })), t1),
            (Err(e), t1) => (Err(e), t1),
        },
        ObjectKind::Object => match crate::property_values::object_of(w, t, v, obj) {
            (Ok(x), t1) => (Ok(ObjectTypeView::Object(x)), t1),
            (Err(e), t1) => (Err(e), t1),
        },
    }
}

/// Whether an object with that path is dumped: all are, or those of native code.
pub open spec fn selected(path: Seq<char>, all: bool) -> bool {
    all || crate::text::begins_with(path, "/Script/"@)
}

/// An object with that path by its kind; nothing where it is not dumped.
pub open spec fn object_type_of(
    w: World,
    t: nat,
    v: (u16, u16),
    obj: u64,
    path: Seq<char>,
    all: bool,
) -> (Result<Option<ObjectTypeView>, ReadError>, nat) {
    match w.pointer(t, Query::Pointer { base: obj, field: PointerField::ObjectClass }) {
        (Ok(class), t1) => if !selected(path, all) {
            (Ok(None), t1)
        } else {
            match w.object_flags(t1, obj) {
                (Ok(flags), t2) => match w.cast_flags(t2, Query::ClassCastFlags { base: class }) {
                    (Ok(f), t3) => match kind_of(w, t3, v, obj, object_kind(flags, f)) {
                        (Ok(x), t4) => (Ok(Some(x)), t4),
                        (Err(e), t4) => (Err(e), t4),
                    },
                    (Err(e), t3) => (Err(e), t3),
                },
                (Err(e), t2) => (Err(e), t2),
            }
        },
        (Err(e), t1) => (Err(e), t1),
    }
}

fn read_properties<E: Engine>(s: &mut Session<E>, obj: &Ptr<UStruct>) -> (r: Result<
    Vec<Property>,
    ReadError,
>)
    ensures
        final(s).trace().extends(old(s).trace()),
        forall|w: World| #[trigger]
            w.explains(final(s).trace()) ==> properties_of(
                w,
                old(s).now(),
                obj.addr(),
                0,
                Seq::empty(),
            ) == (crate::session::outcome(r), final(s).now()),
{
    let mut properties: Vec<Property> = Vec::new();
    let mut index: u64 = 0;
    let most: u64 = s.left();
    let ghost start = s.now();
    assert(properties.deep_view() =~= Seq::<Property<Seq<char>>>::empty());
    loop
        invariant
            index + s.spec_left() <= most,
            start == old(s).now(),
            s.trace().extends(old(s).trace()),
            forall|w: World| #[trigger]
                w.explains(s.trace()) ==> properties_of(w, start, obj.addr(), 0, Seq::empty())
                    == properties_of(w, s.now(), obj.addr(), index, properties.deep_view()),
        decreases s.spec_left(),
    {
        let query = Query::StructProperty { base: obj.address(), inherited: false, index };
        let prop = match s.optional::<UStruct, ZProperty>(obj, query) {
            Ok(Some(p)) => p,
            Ok(None) => {
                return Ok(properties);
            },
            Err(e) => {
                return Err(e);
            },
        };
        let f = match s.cast_flags(Query::FieldCastFlags { base: prop.address() }) {
            Ok(f) => f,
            Err(e) => {
                return Err(e);
            },
        };
        if f.contains(CastFlag::FProperty) {
            let ghost seen = properties.deep_view();
            match read_prop_type(s, &prop) {
                Ok(p) => {
                    properties.push(p);
                    assert(properties.deep_view() =~= seen.push(p.deep_view()));
                },
                Err(e) => {
                    return Err(e);
                },
            }
        }
        index = index + 1;
    }
}

/// Reads a struct.
pub fn read_struct<E: Engine>(s: &mut Session<E>, obj: &Ptr<UStruct>) -> (r: Result<
    Struct,
    ReadError,
>)
    ensures
        final(s).trace().extends(old(s).trace()),
        forall|w: World| #[trigger]
            w.explains(final(s).trace()) ==> struct_of(
                w,
                old(s).now(),
                old(s).version(),
                obj.addr(),
            ) == (crate::session::outcome(r), final(s).now()),
{
    let properties = match read_properties(s, obj) {
        Ok(p) => p,
        Err(e) => {
            return Err(e);
        },
    };
    let super_struct = match read_optional_target_path(s, obj, PointerField::StructSuper) {
        Ok(p) => p,
        Err(e) => {
            return Err(e);
        },
    };
    let object = match read_object(s, &obj.cast()) {
        Ok(o) => o,
        Err(e) => {
            return Err(e);
        },
    };
    let size: i64 = match s.number(obj.address(), NumberField::StructPropertiesSize) {
        Ok(n) => n,
        Err(e) => {
            return Err(e);
        },
    };
    let alignment: i64 = match s.number(obj.address(), NumberField::StructMinAlignment) {
        Ok(n) => n,
        Err(e) => {
            return Err(e);
        },
    };
    match s.bytes(Query::Script { base: obj.address() }) {
        Ok(script) => Ok(
            Struct {
                object,
                super_struct,
                properties,
                properties_size: size as usize,
                min_alignment: alignment as usize,
                script,
            },
        ),
        Err(e) => Err(e),
    }
}

/// Reads a struct that scripts know.
pub fn read_script_struct<E: Engine>(s: &mut Session<E>, obj: &Ptr<UScriptStruct>) -> (r: Result<
    ScriptStruct,
    ReadError,
>)
    ensures
        final(s).trace().extends(old(s).trace()),
        forall|w: World| #[trigger]
            w.explains(final(s).trace()) ==> script_struct_of(
                w,
                old(s).now(),
                old(s).version(),
                obj.addr(),
            ) == (crate::session::outcome(r), final(s).now()),
{
    let struct_data = match read_struct(s, &obj.cast()) {
        Ok(x) => x,
        Err(e) => {
            return Err(e);
        },
    };
    match s.word(obj.address(), WordField::StructFlags) {
        Ok(bits) => Ok(
            ScriptStruct { struct_data, struct_flags: EStructFlags { bits: bits as u32 } },
        ),
        Err(e) => Err(e),
    }
}

fn read_interfaces<E: Engine>(
    s: &mut Session<E>,
    obj: &Ptr<UClass>,
    entries: &Vec<InterfaceEntry>,
) -> (r: Result<Vec<ImplementedInterface>, ReadError>)
    ensures
        final(s).trace().extends(old(s).trace()),
        forall|w: World| #[trigger]
            w.explains(final(s).trace()) ==> interfaces_of(
                w,
                old(s).now(),
                entries@,
                0,
                Seq::empty(),
            ) == (crate::session::outcome(r), final(s).now()),
{
    let mut interfaces: Vec<ImplementedInterface> = Vec::new();
    let mut i: usize = 0;
    let ghost start = s.now();
    assert(interfaces.deep_view() =~= Seq::<ImplementedInterface<Seq<char>>>::empty());
    while i < entries.len()
        invariant
            i <= entries@.len(),
            start == old(s).now(),
            s.trace().extends(old(s).trace()),
            forall|w: World| #[trigger]
                w.explains(s.trace()) ==> interfaces_of(w, start, entries@, 0, Seq::empty())
                    == interfaces_of(w, s.now(), entries@, i as int, interfaces.deep_view()),
        decreases entries@.len() - i,
    {
        let class: Option<Ptr<UClass>> = match Ptr::new(entries[i].class, obj.ctx().clone()) {
            Ok(p) => Some(p),
            Err(_) => None,
        };
        let ghost seen = interfaces.deep_view();
        match opt_path(s, class) {
            Ok(class) => {
                let interface = ImplementedInterface {
                    class,
                    pointer_offset: entries[i].pointer_offset,
                    implemented_by_k2: entries[i].implemented_by_k2,
                };
                interfaces.push(interface);
                assert(interfaces.deep_view() =~= seen.push(interface.deep_view()));
            },
            Err(e) => {
                return Err(e);
            },
        }
        i = i + 1;
    }
    Ok(interfaces)
}

/// Reads a class.
pub fn read_class<E: Engine>(s: &mut Session<E>, obj: &Ptr<UClass>) -> (r: Result<
    Class,
    ReadError,
>)
    ensures
        final(s).trace().extends(old(s).trace()),
        forall|w: World| #[trigger]
            w.explains(final(s).trace()) ==> class_of(w, old(s).now(), old(s).version(), obj.addr())
                == (crate::session::outcome(r), final(s).now()),
{
    let bits: u64 = match s.word(obj.address(), WordField::ClassFlags) {
        Ok(n) => n,
        Err(e) => {
            return Err(e);
        },
    };
    let class_cast_flags = match s.cast_flags(Query::ClassCastFlags { base: obj.address() }) {
        Ok(f) => f,
        Err(e) => {
            return Err(e);
        },
    };
    let class_default_object = match read_optional_target_path(
        s,
        obj,
        PointerField::ClassDefaultObject,
    ) {
        Ok(p) => p,
        Err(e) => {
            return Err(e);
        },
    };
    let entries = match s.interfaces(obj.address()) {
        Ok(v) => v,
        Err(e) => {
            return Err(e);
        },
    };
    let interfaces = match read_interfaces(s, obj, &entries) {
        Ok(v) => v,
        Err(e) => {
            return Err(e);
        },
    };
    match read_struct(s, &obj.cast()) {
        Ok(struct_data) => Ok(
            Class {
                struct_data,
                class_flags: EClassFlags { bits: bits as u32 },
                class_cast_flags,
                class_default_object,
                instance_vtable: None,
                interfaces,
            },
        ),
        Err(e) => Err(e),
    }
}

fn read_function<E: Engine>(s: &mut Session<E>, obj: &Ptr<UFunction>) -> (r: Result<
    Function,
    ReadError,
>)
    ensures
        final(s).trace().extends(old(s).trace()),
        forall|w: World| #[trigger]
            w.explains(final(s).trace()) ==> function_of(
                w,
                old(s).now(),
                old(s).version(),
                obj.addr(),
            ) == (crate::session::outcome(r), final(s).now()),
{
    let bits: u64 = match s.word(obj.address(), WordField::FunctionFlags) {
        Ok(n) => n,
        Err(e) => {
            return Err(e);
        },
    };
    let struct_data = match read_struct(s, &obj.cast()) {
        Ok(x) => x,
        Err(e) => {
            return Err(e);
        },
    };
    match s.word(obj.address(), WordField::FunctionFunc) {
        Ok(func) => Ok(
            Function { struct_data, function_flags: EFunctionFlags { bits: bits as u32 }, func },
        ),
        Err(e) => Err(e),
    }
}

fn read_kind<E: Engine>(s: &mut Session<E>, obj: &Ptr<UObject>, kind: ObjectKind) -> (r: Result<
    ObjectType,
    ReadError,
>)
    ensures
        final(s).trace().extends(old(s).trace()),
        forall|w: World| #[trigger]
            w.explains(final(s).trace()) ==> kind_of(
                w,
                old(s).now(),
                old(s).version(),
                obj.addr(),
                kind,
            ) == (crate::session::outcome(r), final(s).now()),
{
    match kind {
        ObjectKind::Class => match read_class(s, &obj.cast()) {
            Ok(x) => Ok(ObjectType::Class(x)),
            Err(e) => Err(e),
        },
        ObjectKind::Function => match read_function(s, &obj.cast()) {
            Ok(x) => Ok(ObjectType::Function(x)),
            Err(e) => Err(e),
        },
        ObjectKind::ScriptStruct => match read_script_struct(s, &obj.cast()) {
            Ok(x) => Ok(ObjectType::ScriptStruct(x)),
            Err(e) => Err(e),
        },
        ObjectKind::Enum => match read_enum(s, &obj.cast()) {
            Ok(x) => Ok(ObjectType::Enum(x)),
            Err(e) => Err(e),
        },
        ObjectKind::Package => match read_object(s, obj) {
            Ok(x) => Ok(ObjectType::Package(Package { object: x })),
            Err(e) => Err(e),
        },
        ObjectKind::Object => match read_object(s, obj) {
            Ok(x) => Ok(ObjectType::Object(x)),
            Err(e) => Err(e),
        },
    }
}

/// Reads an object with that path by its kind; nothing where the options leave it out.
pub fn read_object_type<E: Engine>(
    s: &mut Session<E>,
    obj: &Ptr<UObject>,
    path: &str,
    options: &DumpOptions,
) -> (r: Result<Option<ObjectType>, ReadError>)
    ensures
        final(s).trace().extends(old(s).trace()),
        forall|w: World| #[trigger]
            w.explains(final(s).trace()) ==> object_type_of(
                w,
                old(s).now(),
                old(s).version(),
                obj.addr(),
                path@,
                options.all,
            ) == (crate::session::outcome(r), final(s).now()),
{
    let query = Query::Pointer { base: obj.address(), field: PointerField::ObjectClass };
    let class = match s.pointer::<UObject, UClass>(obj, query) {
        Ok(class) => class,
        Err(e) => {
            return Err(e);
        },
    };
    if !options.all && !starts_with(path, "/Script/") {
        return Ok(None);
    }
    let flags = match s.object_flags(obj.address()) {
        Ok(f) => f,
        Err(e) => {
            return Err(e);
        },
    };
    let f = match s.cast_flags(Query::ClassCastFlags { base: class.address() }) {
        Ok(f) => f,
        Err(e) => {
            return Err(e);
        },
    };
    match read_kind(s, obj, pick_object_kind(flags, &f)) {
        Ok(x) => Ok(Some(x)),
        Err(e) => Err(e),
    }
}

/// Whether the target says of a field that it is a property.
pub open spec fn is_property(w: World, field: u64) -> bool {
    w.told_cast_flags(Query::FieldCastFlags { base: field }) matches Some(flags) && flags.contains(
        CastFlag::FProperty,
    )
}

/// Whether `properties` are those that the target lists of a struct itself, in their order. What is
/// listed and is no property is left out.
pub open spec fn properties_told(
    w: World,
    s: u64,
    properties: Seq<Property<Seq<char>>>,
) -> bool {
    exists|listed: Seq<u64>| #[trigger]
        crate::property_values::lists_fields(w, s, false, listed) && same_properties(
            w,
            listed.filter(|field: u64| is_property(w, field)),
            properties,
        )
}

/// Whether properties are those at the addresses, one for each and in that order.
pub open spec fn same_properties(
    w: World,
    at: Seq<u64>,
    properties: Seq<Property<Seq<char>>>,
) -> bool {
    properties.len() == at.len() && forall|k: int|
        0 <= k < at.len() ==> crate::property_types::has_property(
            w,
            #[trigger] at[k],
            properties[k],
        )
}

proof fn lemma_properties_told(
    w: World,
    t: nat,
    s: u64,
    listed: Seq<u64>,
    seen: Seq<Property<Seq<char>>>,
)
    requires
        crate::paths::still(w),
        w.limit <= u64::MAX,
        listed.len() <= t,
        forall|i: int|
            0 <= i < listed.len() ==> #[trigger] listed[i] != 0 && w.told_address(
                Query::StructProperty { base: s, inherited: false, index: i as u64 },
            ) == Some(listed[i]),
        same_properties(w, listed.filter(|field: u64| is_property(w, field)), seen),
    ensures
        properties_of(w, t, s, listed.len() as u64, seen).0 matches Ok(properties)
            ==> properties_told(w, s, properties),
    decreases w.limit - t,
{
    reveal(Seq::filter);
    let index = listed.len() as u64;
    if t < w.limit {
        let query = Query::StructProperty { base: s, inherited: false, index };
        match w.optional(t, query) {
            (Ok(Some(prop)), t1) => {
                if let (Ok(f), t2) = w.cast_flags(t1, Query::FieldCastFlags { base: prop }) {
                    let more = listed.push(prop);
                    assert(more.drop_last() =~= listed);
                    if f.has(CastFlag::FProperty) {
                        if let (Ok(p), t3) = crate::property_types::property_of(w, t2, prop) {
                            assert(crate::property_types::has_property(w, prop, p));
                            lemma_properties_told(w, w.later(t2, t3), s, more, seen.push(p));
                        }
                    } else {
                        lemma_properties_told(w, t2, s, more, seen);
                    }
                }
            },
            (Ok(None), _) => {
                assert(crate::property_values::lists_fields(w, s, false, listed));
            },
            (Err(_), _) => {},
        }
    }
}

/// In a target that stands still, what is read of the properties of a struct are those that it
/// lists itself, each at the place where it is listed.
pub proof fn properties_stand_as_listed(
    w: World,
    t: nat,
    s: u64,
    properties: Seq<Property<Seq<char>>>,
)
    requires
        crate::paths::still(w),
        w.limit <= u64::MAX,
        properties_of(w, t, s, 0, Seq::empty()).0 == Ok::<_, ReadError>(properties),
    ensures
        properties_told(w, s, properties),
{
    reveal(Seq::filter);
    lemma_properties_told(w, t, s, Seq::empty(), Seq::empty());
}

/// Whether a struct can be read and is that one.
pub open spec fn has_struct(w: World, v: (u16, u16), s: u64, of: StructView) -> bool {
    exists|t: nat| (#[trigger] struct_of(w, t, v, s)).0 == Ok::<_, ReadError>(of)
}

/// In a target that stands still a struct is what the target says of it: its base, its own
/// properties, its size, its alignment, its script and what every object has.
pub proof fn structs_are_what_is_told(w: World, v: (u16, u16), s: u64, of: StructView)
    requires
        crate::paths::still(w),
        w.limit <= u64::MAX,
        has_struct(w, v, s, of),
    ensures
        crate::property_values::has_object(w, v, s, of.object),
        crate::property_types::may_name_object(w, s, PointerField::StructSuper, of.super_struct),
        properties_told(w, s, of.properties),
        w.told_number(s, NumberField::StructPropertiesSize) matches Some(n) && of.properties_size
            == n as usize,
        w.told_number(s, NumberField::StructMinAlignment) matches Some(n) && of.min_alignment
            == n as usize,
        w.told_bytes(Query::Script { base: s }) == Some(of.script),
{
    let t = choose|t: nat| (#[trigger] struct_of(w, t, v, s)).0 == Ok::<_, ReadError>(of);
    let (properties, t1) = properties_of(w, t, s, 0, Seq::empty());
    properties_stand_as_listed(w, t, s, properties->Ok_0);
    let (base, t2) = crate::property_types::optional_target_path(
        w,
        t1,
        s,
        PointerField::StructSuper,
    );
    crate::property_types::lemma_names_object(w, t1, s, PointerField::StructSuper);
    let (object, t3) = crate::property_values::object_of(w, t2, v, s);
    assert(crate::property_values::has_object(w, v, s, object->Ok_0));
    assert(struct_of(w, t, v, s) == struct_rest(
        w,
        t3,
        s,
        properties->Ok_0,
        base->Ok_0,
        object->Ok_0,
    ));
}

/// Whether a struct that scripts know can be read and is that one.
pub open spec fn has_script_struct(
    w: World,
    v: (u16, u16),
    s: u64,
    of: ScriptStructView,
) -> bool {
    exists|t: nat| (#[trigger] script_struct_of(w, t, v, s)).0 == Ok::<_, ReadError>(of)
}

/// Whether a function can be read and is that one.
pub open spec fn has_function(w: World, v: (u16, u16), f: u64, of: FunctionView) -> bool {
    exists|t: nat| (#[trigger] function_of(w, t, v, f)).0 == Ok::<_, ReadError>(of)
}

/// Whether a class can be read and is that one.
pub open spec fn has_class(w: World, v: (u16, u16), c: u64, of: ClassView) -> bool {
    exists|t: nat| (#[trigger] class_of(w, t, v, c)).0 == Ok::<_, ReadError>(of)
}

/// In a target that stands still a struct that scripts know is a struct with the flags that the
/// target says.
pub proof fn script_structs_are_what_is_told(
    w: World,
    v: (u16, u16),
    s: u64,
    of: ScriptStructView,
)
    requires
        crate::paths::still(w),
        has_script_struct(w, v, s, of),
    ensures
        has_struct(w, v, s, of.struct_data),
        w.told_word(s, WordField::StructFlags) matches Some(n) && of.struct_flags.bits == n as u32,
{
    let t = choose|t: nat| (#[trigger] script_struct_of(w, t, v, s)).0 == Ok::<_, ReadError>(of);
    assert(has_struct(w, v, s, struct_of(w, t, v, s).0->Ok_0));
}

/// In a target that stands still a function is a struct with the flags and the code that the target
/// says.
pub proof fn functions_are_what_is_told(w: World, v: (u16, u16), f: u64, of: FunctionView)
    requires
        crate::paths::still(w),
        has_function(w, v, f, of),
    ensures
        has_struct(w, v, f, of.struct_data),
        w.told_word(f, WordField::FunctionFlags) matches Some(n) && of.function_flags.bits
            == n as u32,
        w.told_word(f, WordField::FunctionFunc) == Some(of.func),
{
    let t = choose|t: nat| (#[trigger] function_of(w, t, v, f)).0 == Ok::<_, ReadError>(of);
    let (bits, t1) = w.word(t, f, WordField::FunctionFlags);
    assert(has_struct(w, v, f, struct_of(w, t1, v, f).0->Ok_0));
}

/// Whether an interface is what the target says of one: by the path of its class, if it has one.
pub open spec fn interface_told(
    w: World,
    entry: InterfaceEntry,
    interface: ImplementedInterface<Seq<char>>,
) -> bool {
    &&& interface.pointer_offset == entry.pointer_offset
    &&& interface.implemented_by_k2 == entry.implemented_by_k2
    &&& match interface.class {
        Some(path) => entry.class != 0 && crate::paths::has_path(w, entry.class, path),
        None => entry.class == 0,
    }
}

/// Whether interfaces are what the target says, one for each entry and in that order.
pub open spec fn interfaces_told(
    w: World,
    entries: Seq<InterfaceEntry>,
    interfaces: Seq<ImplementedInterface<Seq<char>>>,
) -> bool {
    interfaces.len() == entries.len() && forall|i: int|
        0 <= i < entries.len() ==> interface_told(w, #[trigger] entries[i], interfaces[i])
}

proof fn lemma_interfaces_told(
    w: World,
    t: nat,
    entries: Seq<InterfaceEntry>,
    i: int,
    seen: Seq<ImplementedInterface<Seq<char>>>,
)
    requires
        0 <= i <= entries.len(),
        interfaces_told(w, entries.take(i), seen),
    ensures
        interfaces_of(w, t, entries, i, seen).0 matches Ok(interfaces) ==> interfaces_told(
            w,
            entries,
            interfaces,
        ),
    decreases entries.len() - i,
{
    if i < entries.len() {
        let class = if entries[i].class == 0 {
            None
        } else {
            Some(entries[i].class)
        };
        if let (Ok(path), t1) = crate::paths::optional_path_of(w, t, class) {
            if class is Some {
                assert(crate::paths::path_of(w, t, class->0).0 == Ok::<_, ReadError>(path->0));
                assert(crate::paths::has_path(w, class->0, path->0));
            }
            let x = ImplementedInterface {
                class: path,
                pointer_offset: entries[i].pointer_offset,
                implemented_by_k2: entries[i].implemented_by_k2,
            };
            assert(interface_told(w, entries[i], x));
            let more = entries.take(i + 1);
            let all = seen.push(x);
            assert forall|k: int| 0 <= k < more.len() implies interface_told(
                w,
                #[trigger] more[k],
                all[k],
            ) by {
                if k < i {
                    assert(entries.take(i)[k] == more[k]);
                }
            }
            lemma_interfaces_told(w, t1, entries, i + 1, all);
        }
    } else {
        assert(entries.take(i) =~= entries);
    }
}

/// In a target that stands still a class is a struct with the flags, the cast flags, the default
/// object and the interfaces that the target says, and no vtable of instances yet.
pub proof fn classes_are_what_is_told(w: World, v: (u16, u16), c: u64, of: ClassView)
    requires
        crate::paths::still(w),
        has_class(w, v, c, of),
    ensures
        has_struct(w, v, c, of.struct_data),
        w.told_word(c, WordField::ClassFlags) matches Some(n) && of.class_flags.bits == n as u32,
        w.told(Query::ClassCastFlags { base: c }) == Ok::<_, ReadError>(
            crate::session::Reply::CastFlags(of.class_cast_flags),
        ),
        crate::property_types::may_name_object(
            w,
            c,
            PointerField::ClassDefaultObject,
            of.class_default_object,
        ),
        w.told_interfaces(c) matches Some(entries) && interfaces_told(w, entries, of.interfaces),
        of.instance_vtable is None,
{
    let t = choose|t: nat| (#[trigger] class_of(w, t, v, c)).0 == Ok::<_, ReadError>(of);
    let (bits, t1) = w.word(t, c, WordField::ClassFlags);
    let (f, t2) = w.cast_flags(t1, Query::ClassCastFlags { base: c });
    let (object, t3) = crate::property_types::optional_target_path(
        w,
        t2,
        c,
        PointerField::ClassDefaultObject,
    );
    crate::property_types::lemma_names_object(w, t2, c, PointerField::ClassDefaultObject);
    let flags = EClassFlags { bits: bits->Ok_0 as u32 };
    assert(class_of(w, t, v, c) == class_rest(
        w,
        t3,
        v,
        c,
        flags,
        f->Ok_0,
        object->Ok_0,
    ));
    let (entries, t4) = w.interfaces(t3, c);
    let all = entries->Ok_0;
    assert(all.take(0) =~= Seq::<InterfaceEntry>::empty());
    lemma_interfaces_told(w, t4, all, 0, Seq::empty());
    let (_, t5) = interfaces_of(w, t4, all, 0, Seq::empty());
    assert(has_struct(w, v, c, struct_of(w, t5, v, c).0->Ok_0));
}

/// Whether an object can be read by its kind, and is that or is left out.
pub open spec fn has_type(
    w: World,
    v: (u16, u16),
    obj: u64,
    path: Seq<char>,
    all: bool,
    of: Option<ObjectTypeView>,
) -> bool {
    exists|t: nat|
        (#[trigger] object_type_of(w, t, v, obj, path, all)).0 == Ok::<_, ReadError>(of)
}

/// Whether a path is that of something of native code.
pub open spec fn is_native(path: Seq<char>) -> bool {
    path.len() >= 8 && path.take(8) == seq!['/', 'S', 'c', 'r', 'i', 'p', 't', '/']
}

/// The cast flags that name kinds of objects. Of those that a class has the first decides.
pub open spec fn kind_order() -> Seq<CastFlag> {
    seq![
        CastFlag::UClass,
        CastFlag::UFunction,
        CastFlag::UScriptStruct,
        CastFlag::UEnum,
        CastFlag::UPackage,
    ]
}

/// Whether an object is no more than data.
pub open spec fn is_data(flags: EObjectFlags) -> bool {
    flags.archetype_object || flags.class_default_object
}

/// Whether an object is of the kind that `flag` names.
pub open spec fn is_kind(flags: EObjectFlags, kinds: Seq<CastFlag>, flag: CastFlag) -> bool {
    !is_data(flags) && crate::property_types::is_first(kind_order(), kinds, flag)
}

/// Whether an object is of no kind that has a name.
pub open spec fn is_of_no_kind(flags: EObjectFlags, kinds: Seq<CastFlag>) -> bool {
    is_data(flags) || forall|i: int|
        0 <= i < kind_order().len() ==> !kinds.contains(#[trigger] kind_order()[i])
}

/// An object is of the first kind that the cast flags of its class name, and of none where they
/// name none or where it is an archetype or a default object.
pub proof fn first_kind_decides_on_object(flags: EObjectFlags, f: EClassCastFlags)
    ensures
        match object_kind(flags, f) {
            ObjectKind::Class => is_kind(flags, f.named@, CastFlag::UClass),
            ObjectKind::Function => is_kind(flags, f.named@, CastFlag::UFunction),
            ObjectKind::ScriptStruct => is_kind(flags, f.named@, CastFlag::UScriptStruct),
            ObjectKind::Enum => is_kind(flags, f.named@, CastFlag::UEnum),
            ObjectKind::Package => is_kind(flags, f.named@, CastFlag::UPackage),
            ObjectKind::Object => is_of_no_kind(flags, f.named@),
        },
{
    let order = kind_order();
    assert(order[0] == CastFlag::UClass);
    assert(order[1] == CastFlag::UFunction);
    assert(order[2] == CastFlag::UScriptStruct);
    assert(order[3] == CastFlag::UEnum);
    assert(order[4] == CastFlag::UPackage);
}

/// Whether `of` is what the target says of an object whose class has those cast flags. Archetypes
/// and default objects are no more than objects; others are of the first kind that the flags name.
pub open spec fn object_told(
    w: World,
    v: (u16, u16),
    obj: u64,
    flags: EObjectFlags,
    kinds: Seq<CastFlag>,
    of: ObjectTypeView,
) -> bool {
    match of {
        ObjectTypeView::Class(x) =>
            is_kind(flags, kinds, CastFlag::UClass) && has_class(w, v, obj, x),
        ObjectTypeView::Function(x) =>
            is_kind(flags, kinds, CastFlag::UFunction) && has_function(w, v, obj, x),
        ObjectTypeView::ScriptStruct(x) =>
            is_kind(flags, kinds, CastFlag::UScriptStruct) && has_script_struct(
                w,
                v,
                obj,
                x,
            ),
        ObjectTypeView::Enum(x) =>
            is_kind(flags, kinds, CastFlag::UEnum) && crate::property_values::has_enum(
                w,
                v,
                obj,
                x,
            ),
        ObjectTypeView::Package(x) => is_kind(flags, kinds, CastFlag::UPackage)
            && crate::property_values::has_object(w, v, obj, x.object),
        ObjectTypeView::Object(x) => is_of_no_kind(flags, kinds)
            && crate::property_values::has_object(w, v, obj, x),
    }
}

#[verifier::rlimit(60)]
#[verifier::spinoff_prover]
proof fn lemma_kind_told(
    w: World,
    t: nat,
    v: (u16, u16),
    obj: u64,
    flags: EObjectFlags,
    f: EClassCastFlags,
)
    ensures
        kind_of(w, t, v, obj, object_kind(flags, f)).0 matches Ok(of) ==> object_told(
            w,
            v,
            obj,
            flags,
            f.named@,
            of,
        ),
{
    first_kind_decides_on_object(flags, f);
    match object_kind(flags, f) {
        ObjectKind::Class => {
            if let (Ok(x), _) = class_of(w, t, v, obj) {
                assert(has_class(w, v, obj, x));
            }
        },
        ObjectKind::Function => {
            if let (Ok(x), _) = function_of(w, t, v, obj) {
                assert(has_function(w, v, obj, x));
            }
        },
        ObjectKind::ScriptStruct => {
            if let (Ok(x), _) = script_struct_of(w, t, v, obj) {
                assert(has_script_struct(w, v, obj, x));
            }
        },
        ObjectKind::Enum => {
            if let (Ok(x), _) = crate::property_values::enum_of(w, t, v, obj) {
                assert(crate::property_values::has_enum(w, v, obj, x));
            }
        },
        _ => {
            if let (Ok(x), _) = crate::property_values::object_of(w, t, v, obj) {
                assert(crate::property_values::has_object(w, v, obj, x));
            }
        },
    }
}

/// In a target that stands still an object is dumped just where all are or its path is that of
/// native code, and then as what the target says it is: by its kind, whichever that is.
pub proof fn dumped_objects_are_what_is_told(
    w: World,
    v: (u16, u16),
    obj: u64,
    path: Seq<char>,
    all: bool,
    of: Option<ObjectTypeView>,
)
    requires
        crate::paths::still(w),
        has_type(w, v, obj, path, all, of),
    ensures
        of is Some <==> all || is_native(path),
        of matches Some(of) ==> match (w.told_object_flags(obj), w.told_kinds(obj)) {
            (Some(flags), Some(kinds)) => object_told(w, v, obj, flags, kinds, of),
            _ => false,
        },
{
    let t = choose|t: nat|
        (#[trigger] object_type_of(w, t, v, obj, path, all)).0 == Ok::<_, ReadError>(of);
    reveal_strlit("/Script/");
    assert("/Script/"@ =~= seq!['/', 'S', 'c', 'r', 'i', 'p', 't', '/']);
    assert(selected(path, all) <==> all || is_native(path));
    let (class, t1) = w.pointer(
        t,
        Query::Pointer { base: obj, field: PointerField::ObjectClass },
    );
    if selected(path, all) {
        let (flags, t2) = w.object_flags(t1, obj);
        let (f, t3) = w.cast_flags(t2, Query::ClassCastFlags { base: class->Ok_0 });
        lemma_kind_told(w, t3, v, obj, flags->Ok_0, f->Ok_0);
    }
}

proof fn lemma_properties_read(
    w: World,
    t: nat,
    s: u64,
    index: u64,
    seen: Seq<Property<Seq<char>>>,
)
    requires
        crate::session::answers_all(w),
        crate::property_types::fields_have_kinds(w),
    ensures
        crate::session::read_or_ran_out(w, properties_of(w, t, s, index, seen)),
    decreases w.limit - t,
{
    let query = Query::StructProperty { base: s, inherited: false, index };
    if t < w.limit {
        assert((w.answers)(t, query) is Ok);
        if let (Ok(Some(prop)), t1) = w.optional(t, query) {
            crate::session::questions_are_answered(w, t1, prop);
            if let (Ok(f), t2) = w.cast_flags(t1, Query::FieldCastFlags { base: prop }) {
                if f.has(CastFlag::FProperty) {
                    crate::property_types::properties_can_be_read(w, t2, prop);
                    if let (Ok(p), t3) = crate::property_types::property_of(w, t2, prop) {
                        lemma_properties_read(
                            w,
                            w.later(t2, t3),
                            s,
                            (index + 1) as u64,
                            seen.push(p),
                        );
                    }
                } else {
                    lemma_properties_read(w, t2, s, (index + 1) as u64, seen);
                }
            }
        }
    }
}

/// A struct of a target that answers all questions is read, unless no more questions may be asked
/// or it holds what readers of values do not count on.
pub proof fn structs_can_be_read(w: World, t: nat, v: (u16, u16), s: u64)
    requires
        crate::session::answers_all(w),
        crate::property_types::fields_have_kinds(w),
    ensures
        crate::session::read_or_broken(w, struct_of(w, t, v, s)),
{
    lemma_properties_read(w, t, s, 0, Seq::empty());
    let a = properties_of(w, t, s, 0, Seq::empty());
    crate::property_types::lemma_target_path_read(w, a.1, s, PointerField::StructSuper);
    let b = crate::property_types::optional_target_path(w, a.1, s, PointerField::StructSuper);
    crate::property_values::objects_can_be_read(w, b.1, v, s);
    let c = crate::property_values::object_of(w, b.1, v, s);
    crate::session::questions_are_answered(w, c.1, s);
    let d = w.number(c.1, s, NumberField::StructPropertiesSize);
    assert(crate::session::read_or_ran_out(w, d));
    crate::session::questions_are_answered(w, d.1, s);
    let e = w.number(d.1, s, NumberField::StructMinAlignment);
    assert(crate::session::read_or_ran_out(w, e));
    crate::session::questions_are_answered(w, e.1, s);
    if a.0 is Ok && b.0 is Ok && c.0 is Ok {
        assert(struct_of(w, t, v, s) == struct_rest(
            w,
            c.1,
            s,
            a.0->Ok_0,
            b.0->Ok_0,
            c.0->Ok_0,
        ));
    }
}

proof fn lemma_interfaces_read(
    w: World,
    t: nat,
    entries: Seq<InterfaceEntry>,
    i: int,
    seen: Seq<ImplementedInterface<Seq<char>>>,
)
    requires
        crate::session::answers_all(w),
        0 <= i <= entries.len(),
    ensures
        crate::session::read_or_ran_out(w, interfaces_of(w, t, entries, i, seen)),
    decreases entries.len() - i,
{
    if i < entries.len() {
        let class = if entries[i].class == 0 {
            None
        } else {
            Some(entries[i].class)
        };
        crate::paths::paths_can_be_read(w, t, entries[i].class);
        if let (Ok(path), t1) = crate::paths::optional_path_of(w, t, class) {
            let x = ImplementedInterface {
                class: path,
                pointer_offset: entries[i].pointer_offset,
                implemented_by_k2: entries[i].implemented_by_k2,
            };
            lemma_interfaces_read(w, t1, entries, i + 1, seen.push(x));
        }
    }
}

proof fn lemma_class_read(w: World, t: nat, v: (u16, u16), c: u64)
    requires
        crate::session::answers_all(w),
        crate::property_types::fields_have_kinds(w),
    ensures
        crate::session::read_or_broken(w, class_of(w, t, v, c)),
{
    crate::session::questions_are_answered(w, t, c);
    let a = w.word(t, c, WordField::ClassFlags);
    assert(crate::session::read_or_ran_out(w, a));
    crate::session::questions_are_answered(w, a.1, c);
    let b = w.cast_flags(a.1, Query::ClassCastFlags { base: c });
    crate::property_types::lemma_target_path_read(w, b.1, c, PointerField::ClassDefaultObject);
    let d = crate::property_types::optional_target_path(
        w,
        b.1,
        c,
        PointerField::ClassDefaultObject,
    );
    if a.0 is Ok && b.0 is Ok && d.0 is Ok {
        let flags = EClassFlags { bits: a.0->Ok_0 as u32 };
        assert(class_of(w, t, v, c) == class_rest(
            w,
            d.1,
            v,
            c,
            flags,
            b.0->Ok_0,
            d.0->Ok_0,
        ));
        crate::session::questions_are_answered(w, d.1, c);
        let e = w.interfaces(d.1, c);
        if e.0 is Ok {
            lemma_interfaces_read(w, e.1, e.0->Ok_0, 0, Seq::empty());
            let f = interfaces_of(w, e.1, e.0->Ok_0, 0, Seq::empty());
            structs_can_be_read(w, f.1, v, c);
        }
    }
}

proof fn lemma_function_read(w: World, t: nat, v: (u16, u16), f: u64)
    requires
        crate::session::answers_all(w),
        crate::property_types::fields_have_kinds(w),
    ensures
        crate::session::read_or_broken(w, function_of(w, t, v, f)),
        crate::session::read_or_broken(w, script_struct_of(w, t, v, f)),
{
    crate::session::questions_are_answered(w, t, f);
    let a = w.word(t, f, WordField::FunctionFlags);
    assert(crate::session::read_or_ran_out(w, a));
    structs_can_be_read(w, a.1, v, f);
    let b = struct_of(w, a.1, v, f);
    crate::session::questions_are_answered(w, b.1, f);
    assert(crate::session::read_or_ran_out(w, w.word(b.1, f, WordField::FunctionFunc)));
    structs_can_be_read(w, t, v, f);
    let c = struct_of(w, t, v, f);
    crate::session::questions_are_answered(w, c.1, f);
    assert(crate::session::read_or_ran_out(w, w.word(c.1, f, WordField::StructFlags)));
}

proof fn lemma_kind_read(w: World, t: nat, v: (u16, u16), obj: u64, kind: ObjectKind)
    requires
        crate::session::answers_all(w),
        crate::property_types::fields_have_kinds(w),
    ensures
        crate::session::read_or_broken(w, kind_of(w, t, v, obj, kind)),
{
    match kind {
        ObjectKind::Class => {
            lemma_class_read(w, t, v, obj);
        },
        ObjectKind::Function => {
            lemma_function_read(w, t, v, obj);
        },
        ObjectKind::ScriptStruct => {
            lemma_function_read(w, t, v, obj);
        },
        ObjectKind::Enum => {
            crate::property_values::enums_can_be_read(w, t, v, obj);
        },
        _ => {
            crate::property_values::objects_can_be_read(w, t, v, obj);
        },
    }
}

/// An object of a target that answers all questions is read by its kind, whichever that is, unless
/// no more questions may be asked or it holds what readers of values do not count on.
pub proof fn dumped_objects_can_be_read(
    w: World,
    t: nat,
    v: (u16, u16),
    obj: u64,
    path: Seq<char>,
    all: bool,
)
    requires
        crate::session::answers_all(w),
        crate::property_types::fields_have_kinds(w),
    ensures
        crate::session::read_or_broken(w, object_type_of(w, t, v, obj, path, all)),
{
    crate::session::questions_are_answered(w, t, obj);
    let a = w.pointer(t, Query::Pointer { base: obj, field: PointerField::ObjectClass });
    assert(crate::session::read_or_ran_out(w, a));
    if let (Ok(class), t1) = a {
        if selected(path, all) {
            crate::session::questions_are_answered(w, t1, obj);
            if let (Ok(flags), t2) = w.object_flags(t1, obj) {
                crate::session::questions_are_answered(w, t2, class);
                if let (Ok(f), t3) = w.cast_flags(t2, Query::ClassCastFlags { base: class }) {
                    lemma_kind_read(w, t3, v, obj, object_kind(flags, f));
                }
            }
        }
    }
}

} // verus!
