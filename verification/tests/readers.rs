use jmap_dumper::config::{BuildConfig, DumpOptions};
use jmap_dumper::dump::{
    assemble, dump_inner, dump_objects, dump_one, has_canonical_cdo, insert_object, Collector, Jmap,
};
use jmap_dumper::mem::{Ctx, CtxInner, Mem, MemError, Ptr};
use jmap_dumper::model::{
    BytePropertyValue, CastFlag, Class, EClassCastFlags, EClassFlags, EFunctionFlags, EObjectFlags,
    EnumPropertyValue, ImplementedInterface, Object, ObjectType, Package, PropertyType,
    PropertyValue, Struct,
};
use jmap_dumper::object_types::{
    pick_object_kind, read_class, read_object_type, read_script_struct, read_struct, ObjectKind,
};
use jmap_dumper::objects::{FUObjectArray, UClass, UEnum, UObject, UStruct, ZProperty};
use jmap_dumper::pathmap::PathMap;
use jmap_dumper::paths::{opt_path, read_path, HasPath};
use jmap_dumper::pod::{Float32, Float64, PodError};
use jmap_dumper::property_types::read_prop_type;
use jmap_dumper::property_values::{read_enum, read_object, read_prop, read_props};
use jmap_dumper::session::{
    ask_memory, Breach, ByteField, Declared, Engine, InterfaceEntry, NumberField, PointerField,
    Query, ReadError, Reply, Session, TextField, WordField,
};
use jmap_dumper::text::Relation;
use jmap_dumper::values::{put_item, put_pair, relate_values, FieldMap};

/// Memory that has the bytes of some reads; the last of two reads at one place counts.
struct Patches(Vec<(u64, Vec<u8>)>);

impl Mem for Patches {
    fn can_read(&self, address: u64, len: usize) -> bool {
        address.checked_add(len as u64).is_some()
    }

    fn read_buf(&self, address: u64, buf: &mut [u8]) -> Result<(), MemError> {
        for (at, bytes) in self.0.iter().rev() {
            if *at == address && bytes.len() == buf.len() {
                buf.copy_from_slice(bytes);
                return Ok(());
            }
        }
        Err(MemError::Backend("unmapped".to_string()))
    }

    fn write_buf(&self, _address: u64, _buf: &[u8]) -> Result<(), MemError> {
        Err(MemError::WriteUnsupported)
    }
}

fn context_of(mem: Patches, version: (u16, u16), uobjectarray: u64) -> Ctx {
    Ctx::new(CtxInner {
        mem: Box::new(mem),
        fnamepool: 0,
        structs: PathMap::new(),
        version,
        build_config: BuildConfig { case_preserving: false },
        uobjectarray,
        uobjectarray_xor_key: 0,
        image_base_address: 0x140000000,
        build_change_list: Some("CL-1".to_string()),
    })
}

fn context(version: (u16, u16), uobjectarray: u64) -> Ctx {
    context_of(Patches(vec![]), version, uobjectarray)
}

const DECLARED: Declared = Declared {
    object_flags: 0xff,
    cast_flags: 0xff,
    class_flags: 0xff,
    function_flags: 0xff,
    struct_flags: 0xff,
    property_flags: 0xff,
    enum_flags: 0x7f,
    cpp_forms: 3,
};

/// Answers by a table; the last answer for a question counts.
struct Table {
    answers: Vec<(Query, Box<dyn Fn() -> Result<Reply, ReadError>>)>,
    asked: Vec<Query>,
    memory: Vec<(u64, Vec<u8>)>,
}

impl Engine for Table {
    fn answer(&mut self, query: Query) -> Result<Reply, ReadError> {
        self.asked.push(query);
        for (known, answer) in self.answers.iter().rev() {
            if *known == query {
                return answer();
            }
        }
        Err(ReadError::Target(format!("{query:?}")))
    }
}

impl Table {
    fn new() -> Table {
        Table { answers: vec![], asked: vec![], memory: vec![] }
    }

    fn on(&mut self, query: Query, answer: impl Fn() -> Reply + 'static) -> &mut Table {
        self.answers.push((query, Box::new(move || Ok(answer()))));
        self
    }

    fn pointer(&mut self, base: u64, field: PointerField, to: u64) -> &mut Table {
        self.on(Query::Pointer { base, field }, move || Reply::Address(to))
    }

    fn number(&mut self, base: u64, field: NumberField, n: i64) -> &mut Table {
        self.on(Query::Number { base, field }, move || Reply::Number(n))
    }

    fn byte(&mut self, base: u64, field: ByteField, n: u8) -> &mut Table {
        self.on(Query::Byte { base, field }, move || Reply::Byte(n))
    }

    fn word(&mut self, base: u64, field: WordField, n: u64) -> &mut Table {
        self.on(Query::Word { base, field }, move || Reply::Word(n))
    }

    fn text(&mut self, base: u64, field: TextField, text: &'static str) -> &mut Table {
        self.on(Query::Text { base, field }, move || Reply::Text(text.to_string()))
    }

    fn memory(&mut self, address: u64, bytes: &[u8]) -> &mut Table {
        self.memory.push((address, bytes.to_vec()));
        self
    }

    fn field_flags(&mut self, base: u64, named: &[CastFlag]) -> &mut Table {
        let named = named.to_vec();
        self.on(Query::FieldCastFlags { base }, move || {
            Reply::CastFlags(EClassCastFlags { bits: 0x77, named: named.clone() })
        })
    }

    fn class_flags(&mut self, base: u64, named: &[CastFlag]) -> &mut Table {
        let named = named.to_vec();
        self.on(Query::ClassCastFlags { base }, move || {
            Reply::CastFlags(EClassCastFlags { bits: 0x55, named: named.clone() })
        })
    }

    fn object_flags(&mut self, base: u64, archetype: bool, default: bool) -> &mut Table {
        self.on(Query::ObjectFlags { base }, move || {
            Reply::ObjectFlags(EObjectFlags {
                bits: 1,
                archetype_object: archetype,
                class_default_object: default,
            })
        })
    }

    /// An object with a name in another object.
    fn object(&mut self, base: u64, name: &'static str, outer: u64, class: u64) -> &mut Table {
        self.text(base, TextField::ObjectName, name)
            .pointer(base, PointerField::ObjectOuter, outer)
            .pointer(base, PointerField::ObjectClass, class)
            .word(base, WordField::ObjectVtable, 0x9000)
            .object_flags(base, false, false)
    }

    /// A property at position `index` of a struct and of all that derive from it.
    fn listed(&mut self, ustruct: u64, inherited: bool, index: u64, prop: u64) -> &mut Table {
        self.on(Query::StructProperty { base: ustruct, inherited, index }, move || {
            Reply::Address(prop)
        })
    }

    /// A property of that kind.
    fn property(
        &mut self,
        base: u64,
        name: &'static str,
        kind: CastFlag,
        offset: i64,
        size: i64,
    ) -> &mut Table {
        self.text(base, TextField::FieldName, name)
            .field_flags(base, &[CastFlag::FProperty, kind])
            .number(base, NumberField::PropertyOffset, offset)
            .number(base, NumberField::PropertyArrayDim, 1)
            .number(base, NumberField::PropertyElementSize, size)
            .word(base, WordField::PropertyFlags, 0x40)
    }
}

const PACKAGE: u64 = 0x100;
const PACKAGE_CLASS: u64 = 0x110;
const CLASS: u64 = 0x120;
const CLASS_CLASS: u64 = 0x130;
const ACTOR: u64 = 0x140;

/// `/Script/Engine` is a package that holds the class `Actor`, whose class is `Class`.
fn world() -> Table {
    let mut t = Table::new();
    t.object(PACKAGE, "/Script/Engine", 0, PACKAGE_CLASS);
    t.object(PACKAGE_CLASS, "Package", PACKAGE, CLASS_CLASS);
    t.object(CLASS, "Actor", PACKAGE, CLASS_CLASS);
    t.object(CLASS_CLASS, "Class", PACKAGE, CLASS_CLASS);
    t.object(ACTOR, "Pawn", CLASS, CLASS);
    t.class_flags(PACKAGE_CLASS, &[CastFlag::UPackage]);
    t.class_flags(CLASS_CLASS, &[CastFlag::UClass]);
    t.class_flags(CLASS, &[]);
    for class in [PACKAGE_CLASS, CLASS, CLASS_CLASS] {
        t.listed(class, true, 0, 0);
        t.listed(class, false, 0, 0);
    }
    t
}

fn ptr<T>(address: u64) -> Ptr<T> {
    Ptr::new(address, context((5, 1), 0)).unwrap_or_else(|_| panic!("null"))
}

fn session_of(mut table: Table, array: u64) -> Session<Table> {
    let memory = std::mem::take(&mut table.memory);
    Session::new(table, context_of(Patches(memory), (5, 1), array), DECLARED)
}

fn session(table: Table) -> Session<Table> {
    session_of(table, 0)
}

#[test]
fn paths_have_a_dot_behind_packages_and_a_colon_behind_the_rest() {
    let mut s = session(world());
    assert_eq!(read_path(&mut s, &ptr(PACKAGE)), Ok("/Script/Engine".to_string()));
    assert_eq!(read_path(&mut s, &ptr(CLASS)), Ok("/Script/Engine.Actor".to_string()));
    assert_eq!(read_path(&mut s, &ptr(ACTOR)), Ok("/Script/Engine.Actor:Pawn".to_string()));
    assert_eq!(ptr::<UClass>(CLASS).path(&mut s), Ok("/Script/Engine.Actor".to_string()));
    assert_eq!(opt_path::<UObject, Table>(&mut s, None), Ok(None));
    assert_eq!(
        opt_path(&mut s, Some(ptr::<UObject>(CLASS))),
        Ok(Some("/Script/Engine.Actor".to_string()))
    );
}

#[test]
fn paths_nest() {
    let mut s = session(world());
    let outer = read_path(&mut s, &ptr(CLASS)).unwrap();
    let path = read_path(&mut s, &ptr(ACTOR)).unwrap();
    assert_eq!(path, format!("{outer}:Pawn"));
}

#[test]
fn errors_of_the_target_are_passed_on() {
    let mut t = world();
    t.pointer(ACTOR, PointerField::ObjectOuter, 0x9999);
    let mut s = session(t);
    assert!(matches!(read_path(&mut s, &ptr(ACTOR)), Err(ReadError::Target(_))));
    let mut t = world();
    t.pointer(CLASS, PointerField::ObjectClass, 0);
    let mut s = session(t);
    assert_eq!(read_path(&mut s, &ptr(ACTOR)), Err(ReadError::NullPointer));
    let mut t = world();
    t.on(Query::Text { base: ACTOR, field: TextField::ObjectName }, || Reply::Byte(1));
    let mut s = session(t);
    assert_eq!(read_path(&mut s, &ptr(ACTOR)), Err(ReadError::UnexpectedReply));
}

#[test]
fn circles_end_with_the_budget() {
    let mut t = world();
    t.pointer(PACKAGE, PointerField::ObjectOuter, CLASS);
    let mut s = Session::with_limit(t, context((5, 1), 0), DECLARED, 100);
    assert_eq!(read_path(&mut s, &ptr(ACTOR)), Err(ReadError::BudgetExhausted));
    assert_eq!(s.left(), 0);
    assert_eq!(s.into_engine().asked.len(), 100);
}

#[test]
fn types_follow_the_first_flag_that_decides() {
    let mut t = world();
    t.property(0x200, "Health", CastFlag::FFloatProperty, 0x30, 4);
    let mut s = session(t);
    let p = read_prop_type(&mut s, &ptr(0x200)).unwrap();
    assert_eq!(p.address, 0x200);
    assert_eq!(p.name, "Health");
    assert_eq!(p.offset, 0x30);
    assert_eq!(p.array_dim, 1);
    assert_eq!(p.size, 4);
    assert_eq!(p.flags.bits, 0x40);
    assert_eq!(p.kind, PropertyType::Float);
    let mut t = world();
    t.property(0x200, "X", CastFlag::FFloatProperty, 0, 4);
    t.field_flags(0x200, &[CastFlag::FFloatProperty, CastFlag::FStrProperty]);
    let mut s = session(t);
    assert_eq!(read_prop_type(&mut s, &ptr(0x200)).unwrap().kind, PropertyType::Str);
}

#[test]
fn types_name_the_objects_they_refer_to() {
    let path = "/Script/Engine.Actor".to_string();
    let kind = |flag: CastFlag, slots: &[PointerField]| {
        let mut t = world();
        t.property(0x200, "P", flag, 0, 8);
        for slot in slots {
            t.pointer(0x200, *slot, CLASS);
        }
        read_prop_type(&mut session(t), &ptr(0x200)).unwrap().kind
    };
    assert_eq!(
        kind(CastFlag::FStructProperty, &[PointerField::StructPropertyStruct]),
        PropertyType::Struct { struct_path: path.clone() }
    );
    assert_eq!(
        kind(CastFlag::FObjectProperty, &[PointerField::ObjectPropertyClass]),
        PropertyType::Object { property_class: path.clone() }
    );
    assert_eq!(
        kind(
            CastFlag::FClassProperty,
            &[PointerField::ClassPropertyClass, PointerField::ClassMetaClass]
        ),
        PropertyType::Class { property_class: path.clone(), meta_class: path.clone() }
    );
    assert_eq!(
        kind(
            CastFlag::FSoftClassProperty,
            &[PointerField::SoftClassPropertyClass, PointerField::SoftClassMetaClass]
        ),
        PropertyType::SoftClass { property_class: path.clone(), meta_class: path.clone() }
    );
    assert_eq!(
        kind(CastFlag::FSoftObjectProperty, &[PointerField::SoftObjectPropertyClass]),
        PropertyType::SoftObject { property_class: path.clone() }
    );
    assert_eq!(
        kind(CastFlag::FWeakObjectProperty, &[PointerField::WeakObjectPropertyClass]),
        PropertyType::WeakObject { property_class: path.clone() }
    );
    assert_eq!(
        kind(CastFlag::FLazyObjectProperty, &[PointerField::LazyObjectPropertyClass]),
        PropertyType::LazyObject { property_class: path.clone() }
    );
    assert_eq!(
        kind(CastFlag::FInterfaceProperty, &[PointerField::InterfaceClass]),
        PropertyType::Interface { interface_class: path.clone() }
    );
    let signature = Some(path.clone());
    assert_eq!(
        kind(CastFlag::FDelegateProperty, &[PointerField::DelegateSignature]),
        PropertyType::Delegate { signature_function: signature.clone() }
    );
    assert_eq!(
        kind(
            CastFlag::FMulticastInlineDelegateProperty,
            &[PointerField::MulticastDelegateSignature]
        ),
        PropertyType::MulticastInlineDelegate { signature_function: signature.clone() }
    );
    assert_eq!(
        kind(
            CastFlag::FMulticastSparseDelegateProperty,
            &[PointerField::MulticastDelegateSignature]
        ),
        PropertyType::MulticastSparseDelegate { signature_function: signature.clone() }
    );
    assert_eq!(
        kind(CastFlag::FMulticastDelegateProperty, &[PointerField::MulticastDelegateSignature]),
        PropertyType::MulticastDelegate { signature_function: signature.clone() }
    );
    assert_eq!(
        kind(CastFlag::FByteProperty, &[PointerField::ByteEnum]),
        PropertyType::Byte { enum_path: signature }
    );
}

#[test]
fn types_without_more_to_say_are_plain() {
    let kind = |flag: CastFlag| {
        let mut t = world();
        t.property(0x200, "P", flag, 0, 8);
        read_prop_type(&mut session(t), &ptr(0x200)).unwrap().kind
    };
    for (flag, expected) in [
        (CastFlag::FStrProperty, PropertyType::Str),
        (CastFlag::FNameProperty, PropertyType::Name),
        (CastFlag::FTextProperty, PropertyType::Text),
        (CastFlag::FFloatProperty, PropertyType::Float),
        (CastFlag::FDoubleProperty, PropertyType::Double),
        (CastFlag::FUInt16Property, PropertyType::UInt16),
        (CastFlag::FUInt32Property, PropertyType::UInt32),
        (CastFlag::FUInt64Property, PropertyType::UInt64),
        (CastFlag::FInt8Property, PropertyType::Int8),
        (CastFlag::FInt16Property, PropertyType::Int16),
        (CastFlag::FIntProperty, PropertyType::Int),
        (CastFlag::FInt64Property, PropertyType::Int64),
        (CastFlag::FFieldPathProperty, PropertyType::FieldPath),
        (CastFlag::FUtf8StrProperty, PropertyType::Utf8Str),
        (CastFlag::FAnsiStrProperty, PropertyType::AnsiStr),
    ] {
        assert_eq!(kind(flag), expected);
    }
}

#[test]
fn types_are_made_of_other_properties() {
    let mut t = world();
    t.property(0x200, "Map", CastFlag::FMapProperty, 0, 0x50);
    t.pointer(0x200, PointerField::MapKey, 0x210);
    t.pointer(0x200, PointerField::MapValue, 0x220);
    t.property(0x210, "Key", CastFlag::FNameProperty, 0, 8);
    t.property(0x220, "Value", CastFlag::FArrayProperty, 8, 16);
    t.pointer(0x220, PointerField::ArrayInner, 0x230);
    t.property(0x230, "Inner", CastFlag::FBoolProperty, 0, 1);
    t.byte(0x230, ByteField::BoolFieldSize, 1);
    t.byte(0x230, ByteField::BoolByteOffset, 2);
    t.byte(0x230, ByteField::BoolByteMask, 4);
    t.byte(0x230, ByteField::BoolFieldMask, 8);
    t.property(0x240, "Enum", CastFlag::FEnumProperty, 0, 1);
    t.pointer(0x240, PointerField::EnumUnderlying, 0x210);
    t.pointer(0x240, PointerField::EnumEnum, 0);
    t.property(0x250, "Set", CastFlag::FSetProperty, 0, 0x50);
    t.pointer(0x250, PointerField::SetElement, 0x210);
    t.property(0x260, "Optional", CastFlag::FOptionalProperty, 0, 0x10);
    t.pointer(0x260, PointerField::OptionalValue, 0x210);
    let mut s = session(t);
    match read_prop_type(&mut s, &ptr(0x200)).unwrap().kind {
        PropertyType::MapOf { key_prop, value_prop } => {
            assert_eq!(key_prop.kind, PropertyType::Name);
            match value_prop.kind {
                PropertyType::Array { inner } => assert_eq!(
                    inner.kind,
                    PropertyType::Bool { field_size: 1, byte_offset: 2, byte_mask: 4, field_mask: 8 }
                ),
                other => panic!("{other:?}"),
            }
        }
        other => panic!("{other:?}"),
    }
    match read_prop_type(&mut s, &ptr(0x240)).unwrap().kind {
        PropertyType::Enum { container, enum_path } => {
            assert_eq!(container.name, "Key");
            assert_eq!(enum_path, None);
        }
        other => panic!("{other:?}"),
    }
    assert!(matches!(
        read_prop_type(&mut s, &ptr(0x250)).unwrap().kind,
        PropertyType::SetOf { key_prop } if key_prop.name == "Key"
    ));
    assert!(matches!(
        read_prop_type(&mut s, &ptr(0x260)).unwrap().kind,
        PropertyType::Optional { inner } if inner.name == "Key"
    ));
}

#[test]
fn properties_of_no_kind_break_the_dump() {
    let mut t = world();
    t.property(0x200, "P", CastFlag::FProperty, 0, 8);
    let broken = ReadError::Broken(Breach::UnknownPropertyKind { bits: 0x77 });
    let mut s = session(t);
    assert_eq!(read_prop_type(&mut s, &ptr(0x200)), Err(broken.clone()));
    assert_eq!(read_prop(&mut s, &ptr(0x200), &ptr(0x1000), 0), Err(broken));
}

/// The value of a property of that kind at 0x1008.
fn value_of(kind: CastFlag, prepare: impl Fn(&mut Table)) -> Result<Option<PropertyValue>, ReadError> {
    let mut t = world();
    t.property(0x200, "P", kind, 8, 4);
    prepare(&mut t);
    read_prop(&mut session(t), &ptr(0x200), &ptr(0x1000), 0)
}

#[test]
fn numbers_are_read_from_memory() {
    let number = |kind: CastFlag, bytes: &'static [u8]| {
        value_of(kind, |t| {
            t.memory(0x1008, bytes);
        })
        .unwrap()
        .unwrap()
    };
    assert_eq!(number(CastFlag::FUInt16Property, &[1, 2]), PropertyValue::UInt16(0x201));
    assert_eq!(number(CastFlag::FUInt32Property, &[1, 0, 0, 0]), PropertyValue::UInt32(1));
    assert_eq!(
        number(CastFlag::FUInt64Property, &[0xff; 8]),
        PropertyValue::UInt64(u64::MAX)
    );
    assert_eq!(number(CastFlag::FInt8Property, &[0xff]), PropertyValue::Int8(-1));
    assert_eq!(number(CastFlag::FInt16Property, &[0, 0x80]), PropertyValue::Int16(i16::MIN));
    assert_eq!(number(CastFlag::FIntProperty, &[0xfe, 0xff, 0xff, 0xff]), PropertyValue::Int(-2));
    assert_eq!(number(CastFlag::FInt64Property, &[0xff; 8]), PropertyValue::Int64(-1));
    assert_eq!(
        number(CastFlag::FFloatProperty, &[0, 0, 0xc0, 0x3f]),
        PropertyValue::Float(Float32 { bits: 1.5f32.to_bits() })
    );
    assert_eq!(
        number(CastFlag::FDoubleProperty, &[0, 0, 0, 0, 0, 0, 0xf8, 0x3f]),
        PropertyValue::Double(Float64 { bits: 1.5f64.to_bits() })
    );
}

#[test]
fn texts_are_asked_for() {
    let text = |kind: CastFlag, field: TextField| {
        value_of(kind, |t| {
            t.text(0x1008, field, "abc");
        })
        .unwrap()
        .unwrap()
    };
    let abc = "abc".to_string();
    assert_eq!(
        text(CastFlag::FStrProperty, TextField::StringValue),
        PropertyValue::Str(abc.clone())
    );
    assert_eq!(
        text(CastFlag::FNameProperty, TextField::NameValue),
        PropertyValue::Name(abc.clone())
    );
    assert_eq!(
        text(CastFlag::FUtf8StrProperty, TextField::Utf8StringValue),
        PropertyValue::Utf8Str(abc.clone())
    );
    assert_eq!(
        text(CastFlag::FAnsiStrProperty, TextField::Utf8StringValue),
        PropertyValue::Utf8Str(abc)
    );
}

#[test]
fn some_kinds_have_no_value() {
    for kind in [
        CastFlag::FTextProperty,
        CastFlag::FMulticastInlineDelegateProperty,
        CastFlag::FMulticastSparseDelegateProperty,
        CastFlag::FMulticastDelegateProperty,
        CastFlag::FDelegateProperty,
        CastFlag::FWeakObjectProperty,
        CastFlag::FSoftObjectProperty,
        CastFlag::FLazyObjectProperty,
        CastFlag::FInterfaceProperty,
        CastFlag::FFieldPathProperty,
        CastFlag::FOptionalProperty,
    ] {
        assert_eq!(value_of(kind, |_| ()), Ok(None));
    }
}

#[test]
fn truth_values_are_bits_of_a_byte() {
    let bit = |byte: u8| {
        value_of(CastFlag::FBoolProperty, move |t| {
            t.byte(0x200, ByteField::BoolByteOffset, 3);
            t.byte(0x200, ByteField::BoolByteMask, 0x10);
            t.memory(0x100b, &[byte]);
        })
    };
    assert_eq!(bit(0x10), Ok(Some(PropertyValue::Bool(true))));
    assert_eq!(bit(0xef), Ok(Some(PropertyValue::Bool(false))));
}

#[test]
fn elements_lie_one_behind_the_other() {
    let mut t = world();
    t.property(0x200, "P", CastFlag::FInt8Property, 8, 4);
    t.memory(0x1014, &[7]);
    let mut s = session(t);
    assert_eq!(
        read_prop(&mut s, &ptr(0x200), &ptr(0x1000), 3),
        Ok(Some(PropertyValue::Int8(7)))
    );
}

#[test]
fn addresses_beyond_the_address_space_break_the_dump() {
    let overflow = Err(ReadError::Broken(Breach::AddressOverflow));
    let mut t = world();
    t.property(0x200, "P", CastFlag::FInt8Property, -1, 4);
    let mut s = session(t);
    assert_eq!(read_prop(&mut s, &ptr(0x200), &ptr(0x1000), 0), overflow);
    let mut t = world();
    t.property(0x200, "P", CastFlag::FInt8Property, 0, -4);
    let mut s = session(t);
    assert_eq!(read_prop(&mut s, &ptr(0x200), &ptr(0x1000), 2), overflow);
    let mut t = world();
    t.property(0x200, "P", CastFlag::FArrayProperty, 0, 16);
    let mut s = session(t);
    assert_eq!(read_prop(&mut s, &ptr(0x200), &ptr(u64::MAX - 7), 0), overflow);
}

#[test]
fn arrays_are_read_item_by_item() {
    let array = |data: u64, count: u8, kind: CastFlag| {
        value_of(CastFlag::FArrayProperty, move |t| {
            t.memory(0x1010, &[count, 0, 0, 0]);
            t.memory(0x1008, &data.to_le_bytes());
            t.pointer(0x200, PointerField::ArrayInner, 0x210);
            t.property(0x210, "Inner", kind, 0, 1);
            t.memory(0x5000, &[1]);
            t.memory(0x5001, &[2]);
        })
    };
    assert_eq!(
        array(0x5000, 2, CastFlag::FInt8Property),
        Ok(Some(PropertyValue::Array(vec![PropertyValue::Int8(1), PropertyValue::Int8(2)])))
    );
    assert_eq!(
        array(0, 2, CastFlag::FInt8Property),
        Ok(Some(PropertyValue::Array(vec![])))
    );
    assert_eq!(array(0x5000, 2, CastFlag::FTextProperty), Ok(None));
    assert!(matches!(
        array(0x5000, 3, CastFlag::FInt8Property),
        Err(ReadError::Memory(_))
    ));
}

/// An enum `ECounts` with the names `One` and `Uno` for 1 and `Two` for 2.
fn counts(t: &mut Table, at: u64) {
    t.object(at, "ECounts", PACKAGE, CLASS);
    t.text(at, TextField::EnumCppType, "ECounts");
    t.byte(at, ByteField::EnumCppForm, 2);
    t.byte(at, ByteField::EnumFlags, 4);
    t.on(Query::EnumNames { base: at }, || {
        Reply::Names(vec![
            ("One".to_string(), 1),
            ("Uno".to_string(), 1),
            ("Two".to_string(), 2),
        ])
    });
}

#[test]
fn enum_values_are_named() {
    let value = |byte: u8, kind: CastFlag, at: u64| {
        value_of(CastFlag::FEnumProperty, move |t| {
            counts(t, 0x300);
            t.pointer(0x200, PointerField::EnumUnderlying, 0x210);
            t.pointer(0x200, PointerField::EnumEnum, at);
            t.property(0x210, "Underlying", kind, 0, 1);
            t.pointer(0x210, PointerField::ByteEnum, 0);
            t.memory(0x1008, &[byte]);
            t.text(0x1008, TextField::StringValue, "text");
        })
    };
    let name = |text: &str| {
        Ok(Some(PropertyValue::Enum(EnumPropertyValue::Name(text.to_string()))))
    };
    assert_eq!(value(1, CastFlag::FInt8Property, 0x300), name("One"));
    assert_eq!(value(2, CastFlag::FByteProperty, 0x300), name("Two"));
    assert_eq!(
        value(0xff, CastFlag::FInt8Property, 0x300),
        Ok(Some(PropertyValue::Enum(EnumPropertyValue::Value(-1))))
    );
    assert_eq!(value(1, CastFlag::FStrProperty, 0x300), Err(ReadError::UnderlyingKind));
    assert_eq!(
        value(1, CastFlag::FTextProperty, 0x300),
        Err(ReadError::Broken(Breach::NoUnderlyingValue))
    );
    assert_eq!(
        value(1, CastFlag::FInt8Property, 0),
        Err(ReadError::Broken(Breach::NoEnum))
    );
}

#[test]
fn numbers_without_a_sign_wrap_under_an_enum() {
    let value = value_of(CastFlag::FEnumProperty, |t| {
        counts(t, 0x300);
        t.pointer(0x200, PointerField::EnumUnderlying, 0x210);
        t.pointer(0x200, PointerField::EnumEnum, 0x300);
        t.property(0x210, "Underlying", CastFlag::FUInt64Property, 0, 8);
        t.memory(0x1008, &[0xff; 8]);
    });
    assert_eq!(value, Ok(Some(PropertyValue::Enum(EnumPropertyValue::Value(-1)))));
}

#[test]
fn bytes_are_named_where_they_have_an_enum() {
    let value = |byte: u8, at: u64| {
        value_of(CastFlag::FByteProperty, move |t| {
            counts(t, 0x300);
            t.pointer(0x200, PointerField::ByteEnum, at);
            t.memory(0x1008, &[byte]);
        })
    };
    assert_eq!(
        value(2, 0x300),
        Ok(Some(PropertyValue::Byte(BytePropertyValue::Name("Two".to_string()))))
    );
    assert_eq!(value(9, 0x300), Ok(Some(PropertyValue::Byte(BytePropertyValue::Value(9)))));
    assert_eq!(value(2, 0), Ok(Some(PropertyValue::Byte(BytePropertyValue::Value(2)))));
}

#[test]
fn object_values_are_paths() {
    let value = |address: u64| {
        value_of(CastFlag::FObjectProperty, move |t| {
            t.memory(0x1008, &address.to_le_bytes());
        })
    };
    assert_eq!(
        value(CLASS),
        Ok(Some(PropertyValue::Object(Some("/Script/Engine.Actor".to_string()))))
    );
    assert_eq!(value(0), Ok(Some(PropertyValue::Object(None))));
}

/// A map or a set of three positions, of which the second is free.
fn entries(t: &mut Table, is_map: bool, keys: [u8; 2]) {
    for (index, present) in [true, false, true].into_iter().enumerate() {
        let index = index as u64;
        t.on(Query::EntryPresent { base: 0x1008, is_map, index }, move || Reply::Flag(present));
    }
    for (index, at) in [(0, 0x6000), (2, 0x6010)] {
        t.on(Query::EntryAddress { base: 0x1008, is_map, index, size: 16 }, move || {
            Reply::Address(at)
        });
    }
    t.memory(0x6000, &[keys[0]]);
    t.memory(0x6010, &[keys[1]]);
    t.memory(0x6008, &[10]);
    t.memory(0x6018, &[20]);
}

fn map_value(keys: [u8; 2], value_kind: CastFlag) -> Result<Option<PropertyValue>, ReadError> {
    value_of(CastFlag::FMapProperty, move |t| {
        t.pointer(0x200, PointerField::MapKey, 0x210);
        t.pointer(0x200, PointerField::MapValue, 0x220);
        t.number(0x200, NumberField::MapEntrySize, 16);
        t.number(0x1008, NumberField::MapMaxIndex, 3);
        t.property(0x210, "Key", CastFlag::FInt8Property, 0, 1);
        t.property(0x220, "Value", value_kind, 8, 1);
        entries(t, true, keys);
    })
}

#[test]
fn maps_have_one_value_for_each_key() {
    let n = PropertyValue::Int8;
    assert_eq!(
        map_value([1, 2], CastFlag::FInt8Property),
        Ok(Some(PropertyValue::MapOf(vec![(n(1), n(10)), (n(2), n(20))])))
    );
    assert_eq!(
        map_value([2, 1], CastFlag::FInt8Property),
        Ok(Some(PropertyValue::MapOf(vec![(n(1), n(20)), (n(2), n(10))])))
    );
    assert_eq!(
        map_value([1, 1], CastFlag::FInt8Property),
        Ok(Some(PropertyValue::MapOf(vec![(n(1), n(20))])))
    );
    assert_eq!(
        map_value([1, 2], CastFlag::FTextProperty),
        Ok(Some(PropertyValue::MapOf(vec![])))
    );
}

#[test]
fn sets_have_each_element_once() {
    let set = |keys: [u8; 2], max: i64| {
        value_of(CastFlag::FSetProperty, move |t| {
            t.pointer(0x200, PointerField::SetElement, 0x210);
            t.number(0x200, NumberField::SetEntrySize, 16);
            t.number(0x1008, NumberField::SetMaxIndex, max);
            t.property(0x210, "Element", CastFlag::FInt8Property, 0, 1);
            entries(t, false, keys);
        })
    };
    let n = PropertyValue::Int8;
    assert_eq!(set([1, 2], 3), Ok(Some(PropertyValue::SetOf(vec![n(1), n(2)]))));
    assert_eq!(set([2, 1], 3), Ok(Some(PropertyValue::SetOf(vec![n(1), n(2)]))));
    assert_eq!(set([3, 0xff], 3), Ok(Some(PropertyValue::SetOf(vec![n(-1), n(3)]))));
    assert_eq!(set([1, 1], 3), Ok(Some(PropertyValue::SetOf(vec![n(1)]))));
    assert_eq!(set([1, 2], 1), Ok(Some(PropertyValue::SetOf(vec![n(1)]))));
    assert_eq!(set([1, 2], -1), Ok(Some(PropertyValue::SetOf(vec![]))));
}

#[test]
fn floats_count_as_one_where_they_are_equal() {
    let f = |x: f32| PropertyValue::Float(Float32 { bits: x.to_bits() });
    assert!(f(0.0) == f(-0.0));
    assert!(f(f32::NAN) == PropertyValue::Float(Float32 { bits: 0xffc0_0001 }));
    assert!(f(1.0) != f(-1.0));
    assert!(f(f32::INFINITY) != f(f32::NAN));
    let d = |x: f64| PropertyValue::Double(Float64 { bits: x.to_bits() });
    assert!(d(0.0) == d(-0.0));
    assert!(d(1.0) != f(1.0));
    let mut items = vec![f(0.0)];
    put_item(&mut items, f(-0.0));
    put_item(&mut items, f(2.0));
    assert_eq!(items, vec![f(0.0), f(2.0)]);
    let mut pairs = vec![];
    put_pair(&mut pairs, f(0.0), PropertyValue::Bool(true));
    put_pair(&mut pairs, f(-0.0), PropertyValue::Bool(false));
    assert_eq!(pairs, vec![(f(0.0), PropertyValue::Bool(false))]);
}

#[test]
fn floats_are_in_order_and_what_is_no_number_comes_last() {
    let f = |x: f32| PropertyValue::Float(Float32 { bits: x.to_bits() });
    let d = |x: f64| PropertyValue::Double(Float64 { bits: x.to_bits() });
    let places = [f32::NEG_INFINITY, -2.0, -1.0, 0.0, 1.0e-40, 1.0, f32::INFINITY, f32::NAN];
    for (i, a) in places.into_iter().enumerate() {
        for (j, b) in places.into_iter().enumerate() {
            let expected = match (i < j, i == j) {
                (true, _) => Relation::Before,
                (_, true) => Relation::Same,
                _ => Relation::After,
            };
            assert_eq!(relate_values(&f(a), &f(b)), expected);
            assert_eq!(relate_values(&d(f64::from(a)), &d(f64::from(b))), expected);
        }
    }
}

#[test]
fn collections_are_one_whatever_order_they_are_filled_in() {
    let n = PropertyValue::Int;
    let set = |items: [i32; 3]| {
        let mut r = vec![];
        for item in items {
            put_item(&mut r, n(item));
        }
        PropertyValue::SetOf(r)
    };
    assert_eq!(set([1, 2, 3]), set([3, 1, 2]));
    assert_eq!(set([2, 2, 1]), PropertyValue::SetOf(vec![n(1), n(2)]));
    assert!(set([1, 2, 3]) != set([1, 2, 4]));
    let map = |pairs: [(i32, i32); 2]| {
        let mut r = vec![];
        for (key, value) in pairs {
            put_pair(&mut r, n(key), n(value));
        }
        PropertyValue::MapOf(r)
    };
    assert_eq!(map([(1, 2), (3, 4)]), map([(3, 4), (1, 2)]));
    assert!(map([(1, 2), (3, 4)]) != map([(3, 4), (1, 5)]));
    let array = |a, b| PropertyValue::Array(vec![n(a), n(b)]);
    assert!(array(1, 2) != array(2, 1));
    let s = |name: &str, x: i32| PropertyValue::Struct(vec![(name.to_string(), n(x))]);
    assert_eq!(s("a", 1), s("a", 1));
    assert!(s("a", 1) != s("b", 1));
    assert!(s("a", 1) != s("a", 2));
}

#[test]
fn keys_of_maps_are_in_the_order_of_their_text() {
    let name = |text: &str| PropertyValue::Name(text.to_string());
    let mut pairs = vec![];
    for text in ["b", "\u{e9}", "", "B", "ab", "a"] {
        put_pair(&mut pairs, name(text), PropertyValue::Bool(true));
    }
    let keys: Vec<PropertyValue> = pairs.into_iter().map(|(key, _)| key).collect();
    assert_eq!(keys, Vec::from(["", "B", "a", "ab", "b", "\u{e9}"].map(name)));
}

#[test]
fn sequences_are_in_the_order_of_their_first_difference() {
    let array = |items: &[i32]| {
        PropertyValue::Array(items.iter().map(|x| PropertyValue::Int(*x)).collect())
    };
    assert_eq!(relate_values(&array(&[1, 2]), &array(&[1, 3])), Relation::Before);
    assert_eq!(relate_values(&array(&[1]), &array(&[1, 3])), Relation::Before);
    assert_eq!(relate_values(&array(&[2]), &array(&[1, 3])), Relation::After);
    assert_eq!(relate_values(&array(&[]), &array(&[])), Relation::Same);
    let object = |path: Option<&str>| PropertyValue::Object(path.map(|p| p.to_string()));
    assert_eq!(relate_values(&object(None), &object(Some(""))), Relation::Before);
    assert_eq!(relate_values(&object(Some("b")), &object(Some("a"))), Relation::After);
}

#[test]
fn fields_keep_the_place_where_they_were_first_put() {
    let mut fields = FieldMap::new();
    fields.insert("b".to_string(), PropertyValue::Int(1));
    fields.insert("a".to_string(), PropertyValue::Int(2));
    fields.insert("b".to_string(), PropertyValue::Int(3));
    fields.insert("c".to_string(), PropertyValue::Int(4));
    fields.insert("a".to_string(), PropertyValue::Int(5));
    assert_eq!(
        fields.into_fields(),
        vec![
            ("b".to_string(), PropertyValue::Int(3)),
            ("a".to_string(), PropertyValue::Int(5)),
            ("c".to_string(), PropertyValue::Int(4)),
        ]
    );
}

#[test]
fn structs_are_read_field_by_field() {
    let mut t = world();
    t.listed(0x400, true, 0, 0x200);
    t.listed(0x400, true, 1, 0x210);
    t.listed(0x400, true, 2, 0x220);
    t.listed(0x400, true, 3, 0x230);
    t.listed(0x400, true, 4, 0);
    t.property(0x200, "X", CastFlag::FInt8Property, 0, 1);
    t.property(0x210, "Hidden", CastFlag::FTextProperty, 1, 1);
    t.property(0x220, "Two", CastFlag::FInt8Property, 2, 1);
    t.number(0x220, NumberField::PropertyArrayDim, 2);
    t.property(0x230, "Texts", CastFlag::FTextProperty, 4, 1);
    t.number(0x230, NumberField::PropertyArrayDim, 2);
    for i in 0..4 {
        t.memory(0x1000 + i, &[i as u8]);
    }
    let mut s = session(t);
    let n = PropertyValue::Int8;
    assert_eq!(
        read_props(&mut s, &ptr::<UStruct>(0x400), &ptr(0x1000)),
        Ok(vec![
            ("X".to_string(), n(0)),
            ("Two".to_string(), PropertyValue::Array(vec![n(2), n(3)])),
        ])
    );
}

#[test]
fn nested_structs_are_values() {
    let value = value_of(CastFlag::FStructProperty, |t| {
        t.pointer(0x200, PointerField::StructPropertyStruct, 0x400);
        t.listed(0x400, true, 0, 0x210);
        t.listed(0x400, true, 1, 0);
        t.property(0x210, "X", CastFlag::FInt8Property, 4, 1);
        t.memory(0x100c, &[5]);
    });
    assert_eq!(
        value,
        Ok(Some(PropertyValue::Struct(vec![("X".to_string(), PropertyValue::Int8(5))])))
    );
}

#[test]
fn arrays_of_no_dimension_are_empty() {
    let mut t = world();
    t.listed(0x400, true, 0, 0x200);
    t.listed(0x400, true, 1, 0);
    t.property(0x200, "None", CastFlag::FTextProperty, 0, 1);
    t.number(0x200, NumberField::PropertyArrayDim, 0);
    let mut s = session(t);
    assert_eq!(
        read_props(&mut s, &ptr::<UStruct>(0x400), &ptr(0x1000)),
        Ok(vec![("None".to_string(), PropertyValue::Array(vec![]))])
    );
}

#[test]
fn objects_have_a_class_and_an_outer() {
    let mut s = session(world());
    let object = read_object(&mut s, &ptr(ACTOR)).unwrap();
    assert_eq!(object.address, ACTOR);
    assert_eq!(object.vtable, 0x9000);
    assert_eq!(object.outer, Some("/Script/Engine.Actor".to_string()));
    assert_eq!(object.class, "/Script/Engine.Actor");
    assert_eq!(object.children.len(), 0);
    assert_eq!(object.property_values, vec![]);
    assert_eq!(read_object(&mut s, &ptr(PACKAGE)).unwrap().outer, None);
}

#[test]
fn enums_have_flags_since_a_version() {
    let read = |version: (u16, u16)| {
        let mut t = world();
        counts(&mut t, 0x300);
        let ctx = context(version, 0);
        let e: Ptr<UEnum> = Ptr::new(0x300, ctx.clone()).unwrap_or_else(|_| panic!("null"));
        read_enum(&mut Session::new(t, ctx, DECLARED), &e).unwrap()
    };
    let e = read((4, 26));
    assert_eq!(e.enum_flags.map(|f| f.bits), Some(4));
    assert_eq!(e.cpp_type, "ECounts");
    assert_eq!(e.cpp_form.discriminant, 2);
    assert_eq!(e.names.len(), 3);
    assert_eq!(e.object.outer, Some("/Script/Engine".to_string()));
    assert!(read((4, 25)).enum_flags.is_none());
    assert!(read((5, 0)).enum_flags.is_some());
}

/// `Actor` with one property, a base, an interface and a default object.
fn actor_class() -> Table {
    let mut t = world();
    t.listed(CLASS, false, 0, 0x200);
    t.listed(CLASS, false, 1, 0x210);
    t.listed(CLASS, false, 2, 0);
    t.property(0x200, "Health", CastFlag::FFloatProperty, 0x30, 4);
    t.property(0x210, "NoProperty", CastFlag::FFloatProperty, 0, 4);
    t.field_flags(0x210, &[]);
    t.pointer(CLASS, PointerField::StructSuper, CLASS_CLASS);
    t.pointer(CLASS, PointerField::ClassDefaultObject, 0x150);
    t.object(0x150, "Default__Actor", PACKAGE, CLASS);
    t.number(CLASS, NumberField::StructPropertiesSize, 0x100);
    t.number(CLASS, NumberField::StructMinAlignment, 8);
    t.on(Query::Script { base: CLASS }, || Reply::Bytes(vec![1, 2, 3]));
    t.word(CLASS, WordField::ClassFlags, 0x10);
    t.word(CLASS, WordField::StructFlags, 0x20);
    t.word(CLASS, WordField::FunctionFlags, 0x30);
    t.word(CLASS, WordField::FunctionFunc, 0x7ff0_0000_0000);
    t.on(Query::Interfaces { base: CLASS }, || {
        Reply::Interfaces(vec![
            InterfaceEntry { class: CLASS_CLASS, pointer_offset: 4, implemented_by_k2: true },
            InterfaceEntry { class: 0, pointer_offset: -1, implemented_by_k2: false },
        ])
    });
    t
}

#[test]
fn structs_list_their_own_properties() {
    let mut s = session(actor_class());
    let x = read_struct(&mut s, &ptr(CLASS)).unwrap();
    assert_eq!(x.super_struct, Some("/Script/Engine.Class".to_string()));
    assert_eq!(x.properties.len(), 1);
    assert_eq!(x.properties[0].name, "Health");
    assert_eq!(x.properties_size, 0x100);
    assert_eq!(x.min_alignment, 8);
    assert_eq!(x.script, vec![1, 2, 3]);
    assert_eq!(x.object.class, "/Script/Engine.Class");
    let x = read_script_struct(&mut s, &ptr(CLASS)).unwrap();
    assert_eq!(x.struct_flags.bits, 0x20);
    assert_eq!(x.struct_data.properties.len(), 1);
}

#[test]
fn classes_have_interfaces_and_a_default_object() {
    let mut s = session(actor_class());
    let c = read_class(&mut s, &ptr(CLASS)).unwrap();
    assert_eq!(c.class_flags, EClassFlags { bits: 0x10 });
    assert_eq!(c.class_default_object, Some("/Script/Engine.Default__Actor".to_string()));
    assert_eq!(c.instance_vtable, None);
    assert_eq!(
        c.interfaces,
        vec![
            ImplementedInterface {
                class: Some("/Script/Engine.Class".to_string()),
                pointer_offset: 4,
                implemented_by_k2: true,
            },
            ImplementedInterface { class: None, pointer_offset: -1, implemented_by_k2: false },
        ]
    );
}

#[test]
fn kinds_follow_the_cast_flags_of_the_class() {
    let flags = |archetype, default| EObjectFlags {
        bits: 0,
        archetype_object: archetype,
        class_default_object: default,
    };
    let kind = |named: &[CastFlag]| {
        let f = EClassCastFlags { bits: 0, named: named.to_vec() };
        assert_eq!(pick_object_kind(flags(true, false), &f), ObjectKind::Object);
        assert_eq!(pick_object_kind(flags(false, true), &f), ObjectKind::Object);
        pick_object_kind(flags(false, false), &f)
    };
    assert_eq!(kind(&[CastFlag::UClass]), ObjectKind::Class);
    assert_eq!(kind(&[CastFlag::UFunction]), ObjectKind::Function);
    assert_eq!(kind(&[CastFlag::UScriptStruct]), ObjectKind::ScriptStruct);
    assert_eq!(kind(&[CastFlag::UEnum]), ObjectKind::Enum);
    assert_eq!(kind(&[CastFlag::UPackage]), ObjectKind::Package);
    assert_eq!(kind(&[]), ObjectKind::Object);
    assert_eq!(kind(&[CastFlag::UPackage, CastFlag::UEnum]), ObjectKind::Enum);
}

fn options(all: bool) -> DumpOptions {
    DumpOptions { all, ..DumpOptions::default() }
}

#[test]
fn only_native_objects_are_read_unless_all_are() {
    let mut s = session(world());
    let p = ptr::<UObject>(ACTOR);
    assert_eq!(read_object_type(&mut s, &p, "/Game/Map", &options(false)), Ok(None));
    assert!(matches!(
        read_object_type(&mut s, &p, "/Game/Map", &options(true)),
        Ok(Some(ObjectType::Object(_)))
    ));
    assert!(matches!(
        read_object_type(&mut s, &p, "/Script/Engine", &options(false)),
        Ok(Some(ObjectType::Object(_)))
    ));
}

#[test]
fn objects_are_read_by_kind() {
    let read = |flag: CastFlag| {
        let mut t = actor_class();
        t.text(CLASS, TextField::EnumCppType, "EActor");
        t.byte(CLASS, ByteField::EnumCppForm, 0);
        t.byte(CLASS, ByteField::EnumFlags, 0);
        t.on(Query::EnumNames { base: CLASS }, || Reply::Names(vec![]));
        t.class_flags(CLASS_CLASS, &[flag]);
        let mut s = session(t);
        read_object_type(&mut s, &ptr(CLASS), "/Script/X", &options(false)).unwrap().unwrap()
    };
    assert!(matches!(read(CastFlag::UClass), ObjectType::Class(_)));
    match read(CastFlag::UFunction) {
        ObjectType::Function(f) => {
            assert_eq!(f.function_flags, EFunctionFlags { bits: 0x30 });
            assert_eq!(f.func, 0x7ff0_0000_0000);
            assert_eq!(f.struct_data.properties.len(), 1);
        }
        other => panic!("{other:?}"),
    }
    assert!(matches!(read(CastFlag::UScriptStruct), ObjectType::ScriptStruct(_)));
    assert!(matches!(read(CastFlag::UEnum), ObjectType::Enum(_)));
    assert!(matches!(read(CastFlag::UPackage), ObjectType::Package(_)));
    assert!(matches!(read(CastFlag::FProperty), ObjectType::Object(_)));
}

const ARRAY: u64 = 0x800;

fn with_array(mut t: Table, items: &[u64]) -> Table {
    t.number(ARRAY, NumberField::ArrayNumElements, items.len() as i64);
    for (index, item) in items.iter().enumerate() {
        let item = *item;
        t.on(Query::ArrayItem { base: ARRAY, index }, move || Reply::Address(item));
        if item != 0 {
            t.number(item, NumberField::ObjectInternalIndex, index as i64);
        }
    }
    t
}

#[test]
fn entries_that_do_not_know_their_place_are_skipped() {
    let mut t = with_array(world(), &[0, PACKAGE, ACTOR, CLASS_CLASS]);
    t.number(ACTOR, NumberField::ObjectInternalIndex, 9);
    t.answers.push((
        Query::Number { base: CLASS_CLASS, field: NumberField::ObjectInternalIndex },
        Box::new(|| Err(ReadError::Target("unreadable".to_string()))),
    ));
    let mut s = session(t);
    let array: Ptr<FUObjectArray> = ptr(ARRAY);
    let o = options(false);
    assert_eq!(dump_one(&mut s, &array, 0, &o), Ok(None));
    let (path, object) = dump_one(&mut s, &array, 1, &o).unwrap().unwrap();
    assert_eq!(path, "/Script/Engine");
    assert!(matches!(object, ObjectType::Package(_)));
    assert_eq!(dump_one(&mut s, &array, 2, &o), Ok(None));
    assert_eq!(dump_one(&mut s, &array, 3, &o), Ok(None));
}

#[test]
fn dumps_hold_objects_by_path_with_their_children() {
    let t = with_array(actor_class(), &[PACKAGE, 0, CLASS, ACTOR]);
    let mut s = session_of(t, ARRAY);
    let objects = dump_objects(&mut s, &options(false)).unwrap();
    let paths: Vec<&str> = (0..objects.len()).map(|i| objects.entry(i).0).collect();
    assert_eq!(paths, ["/Script/Engine", "/Script/Engine.Actor", "/Script/Engine.Actor:Pawn"]);
    let children = |path: &str| {
        let children = &objects.get(path).unwrap().get_object().children;
        (0..children.len()).map(|i| children.entry(i).0.to_string()).collect::<Vec<_>>()
    };
    assert_eq!(children("/Script/Engine"), ["/Script/Engine.Actor"]);
    assert_eq!(children("/Script/Engine.Actor"), ["/Script/Engine.Actor:Pawn"]);
    assert!(children("/Script/Engine.Actor:Pawn").is_empty());
}

#[test]
fn dumps_can_be_without_objects() {
    let mut s = session_of(Table::new(), ARRAY);
    let o = DumpOptions { skip_objects: true, ..DumpOptions::default() };
    assert_eq!(dump_objects(&mut s, &o).unwrap().len(), 0);
    assert!(s.into_engine().asked.is_empty());
    let mut s = session(Table::new());
    assert_eq!(dump_objects(&mut s, &options(false)), Err(ReadError::NullPointer));
}

type Dump = Jmap<u32, u8>;

#[test]
fn dumps_say_where_they_come_from() {
    let dump: Dump = assemble(
        &context((4, 27), 1),
        "Game.dmp",
        &options(false),
        PathMap::new(),
        |objects| (objects, vec![7]),
        || panic!("nobody asked"),
        || "now".to_string(),
    )
    .unwrap();
    let metadata = dump.metadata.unwrap();
    assert_eq!(metadata.tool, "https://github.com/trumank/jmap");
    assert_eq!(metadata.timestamp, "now");
    assert_eq!(metadata.source, "Game.dmp");
    assert_eq!(metadata.engine_version.major, 4);
    assert_eq!(metadata.engine_version.minor, 27);
    assert_eq!(metadata.build_change_list, Some("CL-1".to_string()));
    assert_eq!(dump.image_base_address, 0x140000000);
    assert_eq!(dump.vtables, vec![7]);
    assert_eq!(dump.names, None);
}

#[test]
fn vtables_and_names_are_there_where_they_are_asked_for() {
    let dump = |o: DumpOptions| -> Result<Dump, ReadError> {
        dump_inner(
            &mut session_of(Table::new(), ARRAY),
            "Game",
            &o,
            |objects| (objects, vec![1, 2]),
            || Ok(3),
            || "now".to_string(),
        )
    };
    let nothing = DumpOptions { skip_objects: true, skip_vtables: true, ..DumpOptions::default() };
    let d = dump(nothing).unwrap();
    assert_eq!(d.objects.len(), 0);
    assert!(d.vtables.is_empty());
    assert_eq!(d.names, None);
    let d = dump(DumpOptions { skip_vtables: false, names: true, ..nothing }).unwrap();
    assert_eq!(d.vtables, vec![1, 2]);
    assert_eq!(d.names, Some(3));
    assert!(dump(DumpOptions::default()).is_err());
}

#[test]
fn names_that_cannot_be_had_fail_a_dump() {
    let dump = |names: bool| -> Result<Dump, ReadError> {
        assemble(
            &context((5, 1), 1),
            "Game",
            &DumpOptions { names, ..DumpOptions::default() },
            PathMap::new(),
            |objects| (objects, vec![]),
            || Err(ReadError::Target("no names".to_string())),
            || "now".to_string(),
        )
    };
    assert_eq!(dump(true), Err(ReadError::Target("no names".to_string())));
    assert!(dump(false).is_ok());
}

#[test]
fn memory_is_read_through_the_context() {
    let ctx = context_of(Patches(vec![(0x1000, vec![1, 2])]), (5, 1), 0);
    assert_eq!(ask_memory(&ctx, 0x1000, 2), Ok(Reply::Bytes(vec![1, 2])));
    assert_eq!(
        ask_memory(&ctx, 0x2000, 2),
        Err(ReadError::Memory(MemError::Backend("unmapped".to_string())))
    );
    assert_eq!(
        ask_memory(&ctx, u64::MAX, 2),
        Err(ReadError::Broken(Breach::AddressOverflow))
    );
    let mut s = Session::new(Table::new(), ctx, DECLARED);
    assert_eq!(s.value::<u16>(0x1000), Ok(0x201));
    assert_eq!(s.ctx().ue_version(), (5, 1));
    assert!(s.into_engine().asked.is_empty());
}

#[test]
fn flags_have_to_be_declared() {
    let undeclared = |bits| Err(ReadError::Value(PodError::InvalidBits { bits }));
    let mut t = Table::new();
    t.word(1, WordField::PropertyFlags, 0x140);
    t.word(1, WordField::ClassFlags, 0x101);
    t.word(1, WordField::StructFlags, 0x102);
    t.word(1, WordField::FunctionFlags, 0x104);
    t.word(1, WordField::ObjectVtable, u64::MAX);
    t.byte(1, ByteField::EnumFlags, 0x80);
    t.byte(1, ByteField::EnumCppForm, 3);
    t.byte(1, ByteField::BoolByteMask, 0x80);
    t.on(Query::ObjectFlags { base: 1 }, || {
        Reply::ObjectFlags(EObjectFlags {
            bits: 0x100,
            archetype_object: false,
            class_default_object: false,
        })
    });
    t.on(Query::ClassCastFlags { base: 1 }, || {
        Reply::CastFlags(EClassCastFlags { bits: 0x200, named: vec![] })
    });
    let mut s = session(t);
    assert_eq!(s.word(1, WordField::PropertyFlags), undeclared(0x140));
    assert_eq!(s.word(1, WordField::ClassFlags), undeclared(0x101));
    assert_eq!(s.word(1, WordField::StructFlags), undeclared(0x102));
    assert_eq!(s.word(1, WordField::FunctionFlags), undeclared(0x104));
    assert_eq!(s.word(1, WordField::ObjectVtable), Ok(u64::MAX));
    assert_eq!(
        s.byte(1, ByteField::EnumFlags),
        Err(ReadError::Value(PodError::InvalidBits { bits: 0x80 }))
    );
    assert_eq!(
        s.byte(1, ByteField::EnumCppForm),
        Err(ReadError::Value(PodError::InvalidDiscriminant { discriminant: 3 }))
    );
    assert_eq!(s.byte(1, ByteField::BoolByteMask), Ok(0x80));
    assert!(s.object_flags(1).is_err());
    assert!(s.cast_flags(Query::ClassCastFlags { base: 1 }).is_err());
}

fn plain(address: u64, outer: Option<&str>) -> Object {
    Object {
        address,
        vtable: 0,
        object_flags: EObjectFlags {
            bits: 0,
            archetype_object: false,
            class_default_object: false,
        },
        outer: outer.map(|s| s.to_string()),
        class: "C".to_string(),
        children: PathMap::new(),
        property_values: vec![],
    }
}

fn class(address: u64, default_object: Option<&str>) -> ObjectType {
    ObjectType::Class(Class {
        struct_data: Struct {
            object: plain(address, Some("/Script/A")),
            super_struct: None,
            properties: vec![],
            properties_size: 0,
            min_alignment: 0,
            script: vec![],
        },
        class_flags: EClassFlags { bits: 0 },
        class_cast_flags: EClassCastFlags { bits: 0, named: vec![] },
        class_default_object: default_object.map(|s| s.to_string()),
        instance_vtable: None,
        interfaces: vec![],
    })
}

#[test]
fn default_objects_belong_next_to_their_class() {
    let here = class(1, Some("/Script/A.Default__B"));
    assert!(has_canonical_cdo("/Script/A.B", &here));
    assert!(has_canonical_cdo("/Script/A:B", &here));
    assert!(!has_canonical_cdo("/Script/B.B", &here));
    assert!(!has_canonical_cdo("B", &class(1, Some(".Default__B"))));
    assert!(!has_canonical_cdo("/Script/A.B", &class(1, None)));
    assert!(!has_canonical_cdo("/Script/A.B", &ObjectType::Object(plain(1, None))));
}

#[test]
fn the_class_with_its_default_object_keeps_the_path() {
    let path = "/Script/A.B";
    let right = || class(1, Some("/Script/A.Default__B"));
    let renamed = || class(2, Some("/Script/Other.Default__B"));
    let winner = |all: Vec<ObjectType>| {
        let mut objects = PathMap::new();
        for object in all {
            insert_object(&mut objects, path.to_string(), object);
        }
        assert_eq!(objects.len(), 1);
        objects.get(path).unwrap().get_object().address
    };
    assert_eq!(winner(vec![right(), renamed()]), 1);
    assert_eq!(winner(vec![renamed(), right()]), 1);
    assert_eq!(winner(vec![renamed(), class(3, None)]), 2);
    assert_eq!(winner(vec![right(), class(3, Some("/Script/A.Default__B"))]), 1);
}

#[test]
fn objects_can_be_gathered_in_any_order() {
    let gather = |order: [usize; 3]| {
        let mut collector = Collector::new();
        for i in order {
            match i {
                0 => collector.add(
                    "/Script/A".to_string(),
                    ObjectType::Package(Package { object: plain(1, None) }),
                ),
                1 => collector.add("/Script/A.B".to_string(), class(2, None)),
                _ => collector.add(
                    "/Script/A.B:C".to_string(),
                    ObjectType::Object(plain(3, Some("/Script/A.B"))),
                ),
            }
        }
        collector.finish()
    };
    let expected = gather([0, 1, 2]);
    for order in [[0, 2, 1], [1, 0, 2], [1, 2, 0], [2, 0, 1], [2, 1, 0]] {
        assert_eq!(gather(order), expected);
    }
    let b = expected.get("/Script/A.B").unwrap().get_object();
    assert_eq!(b.children.get("/Script/A.B:C"), Some(&()));
    assert_eq!(b.children.len(), 1);
}

#[test]
fn children_of_what_is_not_dumped_are_dropped() {
    let mut collector = Collector::new();
    collector.add(
        "/Game/X.Y".to_string(),
        ObjectType::Object(plain(3, Some("/Game/X"))),
    );
    let objects = collector.finish();
    assert_eq!(objects.len(), 1);
    assert_eq!(objects.get("/Game/X.Y").unwrap().get_object().children.len(), 0);
}

#[test]
fn the_same_properties_have_types_and_values() {
    let mut t = world();
    t.property(0x200, "P", CastFlag::FInt8Property, 0, 1);
    t.memory(0x1000, &[3]);
    let mut s = session(t);
    let p: Ptr<ZProperty> = ptr(0x200);
    assert_eq!(read_prop_type(&mut s, &p).unwrap().kind, PropertyType::Int8);
    assert_eq!(read_prop(&mut s, &p, &ptr(0x1000), 0), Ok(Some(PropertyValue::Int8(3))));
}
