//! Questions about a target, and the record of what was asked and answered.

use vstd::prelude::*;

use crate::mem::{read_bytes, Ctx, Mem, MemError, Ptr};
use crate::model::{CastFlag, EClassCastFlags, EObjectFlags};
use crate::pod::{Pod, PodError};

verus! {

/// Slots that hold the address of something.
#[derive(Clone, Copy, PartialEq, Eq, Debug, Structural)]
pub enum PointerField {
    ObjectOuter,
    ObjectClass,
    StructSuper,
    ClassDefaultObject,
    StructPropertyStruct,
    MulticastDelegateSignature,
    DelegateSignature,
    ArrayInner,
    EnumUnderlying,
    EnumEnum,
    MapKey,
    MapValue,
    SetElement,
    ByteEnum,
    ClassPropertyClass,
    ClassMetaClass,
    ObjectPropertyClass,
    SoftClassPropertyClass,
    SoftClassMetaClass,
    SoftObjectPropertyClass,
    WeakObjectPropertyClass,
    LazyObjectPropertyClass,
    InterfaceClass,
    OptionalValue,
}

/// Numbers that the target keeps with a sign or without.
#[derive(Clone, Copy, PartialEq, Eq, Debug, Structural)]
pub enum NumberField {
    ArrayNumElements,
    ObjectInternalIndex,
    PropertyOffset,
    PropertyArrayDim,
    PropertyElementSize,
    StructPropertiesSize,
    StructMinAlignment,
    MapEntrySize,
    SetEntrySize,
    MapMaxIndex,
    SetMaxIndex,
}

/// Single bytes.
#[derive(Clone, Copy, PartialEq, Eq, Debug, Structural)]
pub enum ByteField {
    BoolFieldSize,
    BoolByteOffset,
    BoolByteMask,
    BoolFieldMask,
    EnumFlags,
    EnumCppForm,
}

/// Numbers of four or eight bytes that are taken as they are.
#[derive(Clone, Copy, PartialEq, Eq, Debug, Structural)]
pub enum WordField {
    ObjectVtable,
    FunctionFunc,
    FunctionFlags,
    StructFlags,
    ClassFlags,
    PropertyFlags,
}

/// Texts.
#[derive(Clone, Copy, PartialEq, Eq, Debug, Structural)]
pub enum TextField {
    ObjectName,
    FieldName,
    EnumCppType,
    StringValue,
    NameValue,
    Utf8StringValue,
}

/// The bits that the flag types of the engine declare, and the number of forms of enums. What the
/// target keeps of such a type is no value of it where it has other bits, or is no form.
#[derive(Clone, Copy, PartialEq, Eq, Debug, Structural)]
pub struct Declared {
    pub object_flags: u64,
    pub cast_flags: u64,
    pub class_flags: u64,
    pub function_flags: u64,
    pub struct_flags: u64,
    pub property_flags: u64,
    pub enum_flags: u8,
    pub cpp_forms: u8,
}

impl Declared {
    /// The bits that a word can have.
    pub open spec fn word_bits(self, field: WordField) -> u64 {
        match field {
            WordField::ObjectVtable => u64::MAX,
            WordField::FunctionFunc => u64::MAX,
            WordField::FunctionFlags => self.function_flags,
            WordField::StructFlags => self.struct_flags,
            WordField::ClassFlags => self.class_flags,
            WordField::PropertyFlags => self.property_flags,
        }
    }

    /// The error of a byte that is no value of its type.
    pub open spec fn byte_error(self, field: ByteField, n: u8) -> Option<PodError> {
        match field {
            ByteField::EnumFlags => if n & !self.enum_flags != 0 {
                Some(PodError::InvalidBits { bits: n as u64 })
            } else {
                None
            },
            ByteField::EnumCppForm => if n >= self.cpp_forms {
                Some(PodError::InvalidDiscriminant { discriminant: n })
            } else {
                None
            },
            _ => None,
        }
    }

    fn get_word_bits(&self, field: WordField) -> (r: u64)
        ensures
            r == self.word_bits(field),
    {
        match field {
            WordField::ObjectVtable => u64::MAX,
            WordField::FunctionFunc => u64::MAX,
            WordField::FunctionFlags => self.function_flags,
            WordField::StructFlags => self.struct_flags,
            WordField::ClassFlags => self.class_flags,
            WordField::PropertyFlags => self.property_flags,
        }
    }

    fn get_byte_error(&self, field: ByteField, n: u8) -> (r: Option<PodError>)
        ensures
            r == self.byte_error(field, n),
    {
        match field {
            ByteField::EnumFlags => if n & !self.enum_flags != 0 {
                Some(PodError::InvalidBits { bits: n as u64 })
            } else {
                None
            },
            ByteField::EnumCppForm => if n >= self.cpp_forms {
                Some(PodError::InvalidDiscriminant { discriminant: n })
            } else {
                None
            },
            _ => None,
        }
    }
}

/// `value`, unless it has bits that are not declared.
pub open spec fn checked<T>(bits: u64, declared: u64, value: T) -> Result<T, ReadError> {
    if bits & !declared != 0 {
        Err(ReadError::Value(PodError::InvalidBits { bits }))
    } else {
        Ok(value)
    }
}

fn check<T>(bits: u64, declared: u64, value: T) -> (r: Result<T, ReadError>)
    ensures
        r == checked(bits, declared, value),
{
    if bits & !declared != 0 {
        Err(ReadError::Value(PodError::InvalidBits { bits }))
    } else {
        Ok(value)
    }
}

/// A question about the target.
#[derive(Clone, Copy, PartialEq, Eq, Debug, Structural)]
pub enum Query {
    /// The bytes at an address.
    Memory { address: u64, len: usize },
    /// The address in a slot of what lies at `base`.
    Pointer { base: u64, field: PointerField },
    /// A number of what lies at `base`.
    Number { base: u64, field: NumberField },
    /// A byte of what lies at `base`.
    Byte { base: u64, field: ByteField },
    /// A word of what lies at `base`.
    Word { base: u64, field: WordField },
    /// A text of what lies at `base`.
    Text { base: u64, field: TextField },
    /// The flags of the object at `base`.
    ObjectFlags { base: u64 },
    /// The cast flags of the class at `base`.
    ClassCastFlags { base: u64 },
    /// The cast flags of the field at `base`.
    FieldCastFlags { base: u64 },
    /// The names of the enum at `base` with their values.
    EnumNames { base: u64 },
    /// The interfaces that the class at `base` implements.
    Interfaces { base: u64 },
    /// The script of the struct at `base`.
    Script { base: u64 },
    /// The property at position `index` of the struct at `base`, with those of its bases or
    /// without; no address behind the last.
    StructProperty { base: u64, inherited: bool, index: u64 },
    /// The object at position `index` of the object array at `base`; no address where there is
    /// none.
    ArrayItem { base: u64, index: usize },
    /// Whether the map or set at `base` has an entry at position `index`.
    EntryPresent { base: u64, is_map: bool, index: u64 },
    /// The address of the entry at position `index` of the map or set at `base`, whose entries
    /// have that size.
    EntryAddress { base: u64, is_map: bool, index: u64, size: usize },
}

/// An interface that a class implements.
#[derive(Clone, Copy, PartialEq, Eq, Debug)]
pub struct InterfaceEntry {
    /// The address of the class of the interface, or null.
    pub class: u64,
    pub pointer_offset: i32,
    pub implemented_by_k2: bool,
}

/// An answer of the target.
#[derive(PartialEq, Debug)]
pub enum Reply {
    Address(u64),
    Number(i64),
    Byte(u8),
    Word(u64),
    Text(String),
    Flag(bool),
    Bytes(Vec<u8>),
    ObjectFlags(EObjectFlags),
    CastFlags(EClassCastFlags),
    Names(Vec<(String, i64)>),
    Interfaces(Vec<InterfaceEntry>),
}

/// What a target holds where readers count on something else.
#[derive(Clone, Copy, PartialEq, Eq, Debug, Structural)]
pub enum Breach {
    /// A property with cast flags that belong to no kind.
    UnknownPropertyKind { bits: u64 },
    /// An address beyond the address space.
    AddressOverflow,
    /// An enum property whose underlying property has no value.
    NoUnderlyingValue,
    /// An enum property without an enum.
    NoEnum,
}

/// Why something could not be read.
#[derive(Clone, PartialEq, Eq, Debug)]
pub enum ReadError {
    /// The target reported an error.
    Target(String),
    /// A pointer that is never null is null.
    NullPointer,
    /// The memory could not be read.
    Memory(MemError),
    /// Bytes are no value of the type.
    Value(PodError),
    /// The target answered with something of another kind.
    UnexpectedReply,
    /// No more questions may be asked.
    BudgetExhausted,
    /// The property under an enum property is no integer.
    UnderlyingKind,
    /// The target holds what readers do not count on.
    Broken(Breach),
}

/// An answer or the reason why there is none.
pub type Answer = Result<Reply, ReadError>;

/// What answers questions about a target. Questions about its memory are answered by the memory.
pub trait Engine {
    /// The answer to a question.
    fn answer(&mut self, query: Query) -> Result<Reply, ReadError>;
}

/// A question and the answer to it.
pub struct Exchange {
    pub query: Query,
    pub answer: Answer,
}

/// What was asked and answered, and how much may be asked in all.
pub struct Trace {
    /// The context of the target.
    pub ctx: Ctx,
    pub declared: Declared,
    pub limit: nat,
    pub log: Seq<Exchange>,
}

/// Whether an answer is what the memory may answer to a question for `len` bytes at `address`.
pub open spec fn memory_may_reply(ctx: Ctx, address: u64, len: usize, answer: Answer) -> bool {
    if ctx.spec_inner().mem.admits(address, len as nat) {
        exists|a: Result<Seq<u8>, MemError>| #[trigger]
            ctx.spec_inner().mem.may_answer(address, len as nat, a) && match a {
                Ok(bytes) => answer matches Ok(Reply::Bytes(given)) && given@ == bytes,
                Err(e) => answer == Err::<Reply, ReadError>(ReadError::Memory(e)),
            }
    } else {
        answer == Err::<Reply, ReadError>(ReadError::Broken(Breach::AddressOverflow))
    }
}

/// Whether an answer comes from where answers to such a question come from: that to a question
/// about the memory from the memory of the context.
pub open spec fn comes_from(ctx: Ctx, x: Exchange) -> bool {
    match x.query {
        Query::Memory { address, len } => memory_may_reply(ctx, address, len, x.answer),
        _ => true,
    }
}

impl Trace {
    /// The number of questions that were asked.
    pub open spec fn now(self) -> nat {
        self.log.len()
    }

    /// Whether this trace goes on from an earlier one. What was asked of the memory since was
    /// answered by the memory of the context.
    pub open spec fn extends(self, earlier: Trace) -> bool {
        &&& self.ctx == earlier.ctx
        &&& self.declared == earlier.declared
        &&& self.limit == earlier.limit
        &&& earlier.log.len() <= self.log.len()
        &&& forall|i: int| 0 <= i < earlier.log.len() ==> self.log[i] == #[trigger] earlier.log[i]
        &&& forall|i: int|
            earlier.log.len() <= i < self.log.len() ==> comes_from(self.ctx, #[trigger] self.log[i])
    }
}

/// What a target answers: to each question at each time one answer. A target may change, so that
/// it answers the same question differently at different times.
pub struct World {
    pub declared: Declared,
    pub limit: nat,
    pub answers: spec_fn(nat, Query) -> Answer,
}

impl World {
    /// Whether the target could have given the answers of a trace.
    pub open spec fn explains(self, trace: Trace) -> bool {
        &&& self.declared == trace.declared
        &&& self.limit == trace.limit
        &&& forall|i: int|
            #![trigger trace.log[i]]
            0 <= i < trace.log.len() ==> (self.answers)(i as nat, trace.log[i].query)
                == trace.log[i].answer
    }

    /// The later of two times, of which the second may not lie beyond the limit.
    pub open spec fn later(self, a: nat, b: nat) -> nat {
        if a <= b <= self.limit {
            b
        } else {
            a
        }
    }

    /// The answer to the question that is asked at time `t`, and the time after it.
    pub open spec fn ask(self, t: nat, query: Query) -> (Answer, nat) {
        if t < self.limit {
            ((self.answers)(t, query), t + 1)
        } else {
            (Err(ReadError::BudgetExhausted), t)
        }
    }

    /// The address in a slot; null where it is null.
    pub open spec fn address(self, t: nat, query: Query) -> (Result<u64, ReadError>, nat) {
        match self.ask(t, query) {
            (Ok(Reply::Address(a)), t) => (Ok(a), t),
            (Ok(_), t) => (Err(ReadError::UnexpectedReply), t),
            (Err(e), t) => (Err(e), t),
        }
    }

    /// The address in a slot that is never null.
    pub open spec fn pointer(self, t: nat, query: Query) -> (Result<u64, ReadError>, nat) {
        match self.address(t, query) {
            (Ok(a), t) => if a == 0 {
                (Err(ReadError::NullPointer), t)
            } else {
                (Ok(a), t)
            },
            (Err(e), t) => (Err(e), t),
        }
    }

    /// The address in a slot that may be null.
    pub open spec fn optional(self, t: nat, query: Query) -> (Result<Option<u64>, ReadError>, nat) {
        match self.address(t, query) {
            (Ok(a), t) => if a == 0 {
                (Ok(None), t)
            } else {
                (Ok(Some(a)), t)
            },
            (Err(e), t) => (Err(e), t),
        }
    }

    /// A number.
    pub open spec fn number(self, t: nat, base: u64, field: NumberField) -> (
        Result<i64, ReadError>,
        nat,
    ) {
        match self.ask(t, Query::Number { base, field }) {
            (Ok(Reply::Number(n)), t) => (Ok(n), t),
            (Ok(_), t) => (Err(ReadError::UnexpectedReply), t),
            (Err(e), t) => (Err(e), t),
        }
    }

    /// A byte. One of a type that declares what its values are has to be one of them.
    pub open spec fn byte(self, t: nat, base: u64, field: ByteField) -> (
        Result<u8, ReadError>,
        nat,
    ) {
        match self.ask(t, Query::Byte { base, field }) {
            (Ok(Reply::Byte(n)), t) => match self.declared.byte_error(field, n) {
                Some(e) => (Err(ReadError::Value(e)), t),
                None => (Ok(n), t),
            },
            (Ok(_), t) => (Err(ReadError::UnexpectedReply), t),
            (Err(e), t) => (Err(e), t),
        }
    }

    /// A word. Flags have to be declared.
    pub open spec fn word(self, t: nat, base: u64, field: WordField) -> (
        Result<u64, ReadError>,
        nat,
    ) {
        match self.ask(t, Query::Word { base, field }) {
            (Ok(Reply::Word(n)), t) => (checked(n, self.declared.word_bits(field), n), t),
            (Ok(_), t) => (Err(ReadError::UnexpectedReply), t),
            (Err(e), t) => (Err(e), t),
        }
    }

    /// A text.
    pub open spec fn text(self, t: nat, base: u64, field: TextField) -> (
        Result<Seq<char>, ReadError>,
        nat,
    ) {
        match self.ask(t, Query::Text { base, field }) {
            (Ok(Reply::Text(s)), t) => (Ok(s@), t),
            (Ok(_), t) => (Err(ReadError::UnexpectedReply), t),
            (Err(e), t) => (Err(e), t),
        }
    }

    /// A yes or no.
    pub open spec fn flag(self, t: nat, query: Query) -> (Result<bool, ReadError>, nat) {
        match self.ask(t, query) {
            (Ok(Reply::Flag(b)), t) => (Ok(b), t),
            (Ok(_), t) => (Err(ReadError::UnexpectedReply), t),
            (Err(e), t) => (Err(e), t),
        }
    }

    /// Bytes.
    pub open spec fn bytes(self, t: nat, query: Query) -> (Result<Seq<u8>, ReadError>, nat) {
        match self.ask(t, query) {
            (Ok(Reply::Bytes(b)), t) => (Ok(b@), t),
            (Ok(_), t) => (Err(ReadError::UnexpectedReply), t),
            (Err(e), t) => (Err(e), t),
        }
    }

    /// Cast flags, which have to be declared.
    pub open spec fn cast_flags(self, t: nat, query: Query) -> (
        Result<EClassCastFlags, ReadError>,
        nat,
    ) {
        match self.ask(t, query) {
            (Ok(Reply::CastFlags(f)), t) => (checked(f.bits, self.declared.cast_flags, f), t),
            (Ok(_), t) => (Err(ReadError::UnexpectedReply), t),
            (Err(e), t) => (Err(e), t),
        }
    }

    /// The flags of an object, which have to be declared.
    pub open spec fn object_flags(self, t: nat, base: u64) -> (
        Result<EObjectFlags, ReadError>,
        nat,
    ) {
        match self.ask(t, Query::ObjectFlags { base }) {
            (Ok(Reply::ObjectFlags(f)), t) => (
                checked(f.bits as u64, self.declared.object_flags, f),
                t,
            ),
            (Ok(_), t) => (Err(ReadError::UnexpectedReply), t),
            (Err(e), t) => (Err(e), t),
        }
    }

    /// The names of an enum with their values.
    pub open spec fn names(self, t: nat, base: u64) -> (
        Result<Seq<(Seq<char>, i64)>, ReadError>,
        nat,
    ) {
        match self.ask(t, Query::EnumNames { base }) {
            (Ok(Reply::Names(v)), t) => (Ok(v.deep_view()), t),
            (Ok(_), t) => (Err(ReadError::UnexpectedReply), t),
            (Err(e), t) => (Err(e), t),
        }
    }

    /// The interfaces of a class.
    pub open spec fn interfaces(self, t: nat, base: u64) -> (
        Result<Seq<InterfaceEntry>, ReadError>,
        nat,
    ) {
        match self.ask(t, Query::Interfaces { base }) {
            (Ok(Reply::Interfaces(v)), t) => (Ok(v@), t),
            (Ok(_), t) => (Err(ReadError::UnexpectedReply), t),
            (Err(e), t) => (Err(e), t),
        }
    }

    /// A value of type `T` in the memory at `address`.
    pub open spec fn value<T: Pod>(self, t: nat, address: u64) -> (Result<T, ReadError>, nat) {
        match self.bytes(t, Query::Memory { address, len: T::width() as usize }) {
            (Ok(b), t) => if b.len() != T::width() {
                (Err(ReadError::UnexpectedReply), t)
            } else {
                match T::decode(b) {
                    Ok(v) => (Ok(v), t),
                    Err(e) => (Err(ReadError::Value(e)), t),
                }
            },
            (Err(e), t) => (Err(e), t),
        }
    }
}

impl World {
    /// The answer to a question. A target that stands still gives it at all times.
    pub open spec fn told(self, query: Query) -> Answer {
        (self.answers)(0, query)
    }

    /// The address that is answered, where one is.
    pub open spec fn told_address(self, query: Query) -> Option<u64> {
        match self.told(query) {
            Ok(Reply::Address(a)) => Some(a),
            _ => None,
        }
    }

    /// The address in a slot.
    pub open spec fn told_slot(self, base: u64, field: PointerField) -> Option<u64> {
        self.told_address(Query::Pointer { base, field })
    }

    /// The number that is answered, where one is.
    pub open spec fn told_number(self, base: u64, field: NumberField) -> Option<i64> {
        match self.told(Query::Number { base, field }) {
            Ok(Reply::Number(n)) => Some(n),
            _ => None,
        }
    }

    /// The byte that is answered, where one is.
    pub open spec fn told_byte(self, base: u64, field: ByteField) -> Option<u8> {
        match self.told(Query::Byte { base, field }) {
            Ok(Reply::Byte(n)) => Some(n),
            _ => None,
        }
    }

    /// The word that is answered, where one is.
    pub open spec fn told_word(self, base: u64, field: WordField) -> Option<u64> {
        match self.told(Query::Word { base, field }) {
            Ok(Reply::Word(n)) => Some(n),
            _ => None,
        }
    }

    /// The text that is answered, where one is.
    pub open spec fn told_text(self, base: u64, field: TextField) -> Option<Seq<char>> {
        match self.told(Query::Text { base, field }) {
            Ok(Reply::Text(s)) => Some(s@),
            _ => None,
        }
    }

    /// The yes or no that is answered, where one is.
    pub open spec fn told_flag(self, query: Query) -> Option<bool> {
        match self.told(query) {
            Ok(Reply::Flag(b)) => Some(b),
            _ => None,
        }
    }

    /// The bytes that are answered, where there are any.
    pub open spec fn told_bytes(self, query: Query) -> Option<Seq<u8>> {
        match self.told(query) {
            Ok(Reply::Bytes(b)) => Some(b@),
            _ => None,
        }
    }

    /// The bytes of the memory at an address.
    pub open spec fn told_memory(self, address: u64, len: nat) -> Option<Seq<u8>> {
        self.told_bytes(Query::Memory { address, len: len as usize })
    }

    /// The cast flags that are answered, where there are any: those that have a name.
    pub open spec fn told_cast_flags(self, query: Query) -> Option<Seq<CastFlag>> {
        match self.told(query) {
            Ok(Reply::CastFlags(f)) => Some(f.named@),
            _ => None,
        }
    }

    /// The cast flags of the class of an object.
    pub open spec fn told_kinds(self, obj: u64) -> Option<Seq<CastFlag>> {
        match self.told_slot(obj, PointerField::ObjectClass) {
            Some(class) => self.told_cast_flags(Query::ClassCastFlags { base: class }),
            None => None,
        }
    }

    /// The flags of an object, where they are answered.
    pub open spec fn told_object_flags(self, base: u64) -> Option<EObjectFlags> {
        match self.told(Query::ObjectFlags { base }) {
            Ok(Reply::ObjectFlags(f)) => Some(f),
            _ => None,
        }
    }

    /// The names of an enum with their values, where they are answered.
    pub open spec fn told_names(self, base: u64) -> Option<Seq<(Seq<char>, i64)>> {
        match self.told(Query::EnumNames { base }) {
            Ok(Reply::Names(v)) => Some(v.deep_view()),
            _ => None,
        }
    }

    /// The interfaces of a class, where they are answered.
    pub open spec fn told_interfaces(self, base: u64) -> Option<Seq<InterfaceEntry>> {
        match self.told(Query::Interfaces { base }) {
            Ok(Reply::Interfaces(v)) => Some(v@),
            _ => None,
        }
    }
}

/// Whether a slot may hold no address.
pub open spec fn may_be_null(field: PointerField) -> bool {
    match field {
        PointerField::ObjectOuter => true,
        PointerField::StructSuper => true,
        PointerField::ClassDefaultObject => true,
        PointerField::MulticastDelegateSignature => true,
        PointerField::DelegateSignature => true,
        PointerField::EnumEnum => true,
        PointerField::ByteEnum => true,
        _ => false,
    }
}

/// Whether a reply is one to a question: of its kind, with as many bytes as are asked for, with an
/// address where there has to be one, and with declared flags and forms.
pub open spec fn replies_to(declared: Declared, query: Query, reply: Reply) -> bool {
    match query {
        Query::Memory { len, .. } => reply matches Reply::Bytes(b) && b@.len() == len,
        Query::Pointer { field, .. } => reply matches Reply::Address(a) && (a != 0 || may_be_null(
            field,
        )),
        Query::Number { .. } => reply is Number,
        Query::Byte { field, .. } => reply matches Reply::Byte(n) && match field {
            ByteField::EnumFlags => n & !declared.enum_flags == 0,
            ByteField::EnumCppForm => n < declared.cpp_forms,
            _ => true,
        },
        Query::Word { field, .. } => reply matches Reply::Word(n) && match field {
            WordField::FunctionFlags => n & !declared.function_flags == 0,
            WordField::StructFlags => n & !declared.struct_flags == 0,
            WordField::ClassFlags => n & !declared.class_flags == 0,
            WordField::PropertyFlags => n & !declared.property_flags == 0,
            _ => true,
        },
        Query::Text { .. } => reply is Text,
        Query::ObjectFlags { .. } => reply matches Reply::ObjectFlags(f) && f.bits as u64
            & !declared.object_flags == 0,
        Query::ClassCastFlags { .. } => reply matches Reply::CastFlags(f) && f.bits
            & !declared.cast_flags == 0,
        Query::FieldCastFlags { .. } => reply matches Reply::CastFlags(f) && f.bits
            & !declared.cast_flags == 0,
        Query::EnumNames { .. } => reply is Names,
        Query::Interfaces { .. } => reply is Interfaces,
        Query::Script { .. } => reply is Bytes,
        Query::StructProperty { .. } => reply is Address,
        Query::ArrayItem { .. } => reply is Address,
        Query::EntryPresent { .. } => reply is Flag,
        Query::EntryAddress { .. } => reply matches Reply::Address(a) && a != 0,
    }
}

/// Whether a target answers all questions as they are meant.
pub open spec fn answers_all(w: World) -> bool {
    forall|t: nat, query: Query| #[trigger]
        (w.answers)(t, query) matches Ok(reply) && replies_to(w.declared, query, reply)
}

/// Whether something was read, unless no more questions may be asked.
pub open spec fn read_or_ran_out<T>(w: World, r: (Result<T, ReadError>, nat)) -> bool {
    r.0 matches Err(e) ==> e == ReadError::BudgetExhausted && r.1 >= w.limit
}

/// Whether something was read, unless no more questions may be asked or the target holds what
/// readers of values do not count on.
pub open spec fn read_or_broken<T>(w: World, r: (Result<T, ReadError>, nat)) -> bool {
    r.0 matches Err(e) ==> {
        ||| e == ReadError::BudgetExhausted && r.1 >= w.limit
        ||| e == ReadError::UnderlyingKind
        ||| e == ReadError::Broken(Breach::AddressOverflow)
        ||| e == ReadError::Broken(Breach::NoUnderlyingValue)
        ||| e == ReadError::Broken(Breach::NoEnum)
    }
}

/// A question to a target that answers all of them is answered, unless no more may be asked.
pub proof fn questions_are_answered(w: World, t: nat, base: u64)
    requires
        answers_all(w),
    ensures
        forall|field: NumberField| #[trigger] read_or_ran_out(w, w.number(t, base, field)),
        forall|field: ByteField| #[trigger] read_or_ran_out(w, w.byte(t, base, field)),
        forall|field: WordField| #[trigger] read_or_ran_out(w, w.word(t, base, field)),
        forall|field: TextField| #[trigger] read_or_ran_out(w, w.text(t, base, field)),
        forall|field: PointerField| #[trigger]
            read_or_ran_out(w, w.optional(t, Query::Pointer { base, field })),
        forall|field: PointerField|
            !may_be_null(field) ==> #[trigger] read_or_ran_out(
                w,
                w.pointer(t, Query::Pointer { base, field }),
            ),
        read_or_ran_out(w, w.cast_flags(t, Query::ClassCastFlags { base })),
        read_or_ran_out(w, w.cast_flags(t, Query::FieldCastFlags { base })),
        read_or_ran_out(w, w.object_flags(t, base)),
        read_or_ran_out(w, w.names(t, base)),
        read_or_ran_out(w, w.interfaces(t, base)),
        read_or_ran_out(w, w.bytes(t, Query::Script { base })),
{
    assert forall|word: u64| #[trigger] (word & !u64::MAX) == 0 by {
        assert(word & !0xffff_ffff_ffff_ffffu64 == 0) by (bit_vector);
    }
}

/// What is read of a target is what it answered, and flags and forms are only read where they are
/// declared. A null address is no error just where a slot may hold one.
pub proof fn only_declared_answers_are_read(
    w: World,
    t: nat,
    base: u64,
    word: WordField,
    byte: ByteField,
    query: Query,
)
    ensures
        w.word(t, base, word).0 matches Ok(n) ==> (w.answers)(t, Query::Word { base, field: word })
            == Ok::<_, ReadError>(Reply::Word(n)) && match word {
            WordField::ObjectVtable => true,
            WordField::FunctionFunc => true,
            WordField::FunctionFlags => n & !w.declared.function_flags == 0,
            WordField::StructFlags => n & !w.declared.struct_flags == 0,
            WordField::ClassFlags => n & !w.declared.class_flags == 0,
            WordField::PropertyFlags => n & !w.declared.property_flags == 0,
        },
        w.byte(t, base, byte).0 matches Ok(n) ==> (w.answers)(t, Query::Byte { base, field: byte })
            == Ok::<_, ReadError>(Reply::Byte(n)) && match byte {
            ByteField::EnumFlags => n & !w.declared.enum_flags == 0,
            ByteField::EnumCppForm => n < w.declared.cpp_forms,
            _ => true,
        },
        w.cast_flags(t, query).0 matches Ok(f) ==> (w.answers)(t, query) == Ok::<_, ReadError>(
            Reply::CastFlags(f),
        ) && f.bits & !w.declared.cast_flags == 0,
        w.object_flags(t, base).0 matches Ok(f) ==> (w.answers)(t, Query::ObjectFlags { base })
            == Ok::<_, ReadError>(Reply::ObjectFlags(f)) && f.bits as u64
            & !w.declared.object_flags == 0,
        w.pointer(t, query).0 matches Ok(a) ==> a != 0 && (w.answers)(t, query) == Ok::<
            _,
            ReadError,
        >(Reply::Address(a)),
        w.optional(t, query).0 matches Ok(a) ==> (w.answers)(t, query) == Ok::<_, ReadError>(
            Reply::Address(
                match a {
                    Some(a) => a,
                    None => 0,
                },
            ),
        ) && a != Some(0u64),
        t < w.limit ==> w.pointer(t, query).0 == Err::<u64, ReadError>(ReadError::NullPointer)
            || match (w.answers)(t, query) {
            Ok(Reply::Address(a)) => w.pointer(t, query).0 == Ok::<_, ReadError>(a)
                && w.optional(t, query).0 is Ok,
            Ok(_) => w.pointer(t, query).0 is Err,
            Err(e) => w.pointer(t, query).0 == Err::<u64, ReadError>(e),
        },
{
}

/// What a session answers about the memory is what the memory of its context has: over a memory
/// that always has the same bytes, each answer gives those bytes.
pub proof fn answers_about_memory_are_its_bytes(
    later: Trace,
    earlier: Trace,
    bytes: spec_fn(int) -> Option<u8>,
    i: int,
    address: u64,
    len: usize,
)
    requires
        later.extends(earlier),
        crate::cache::steady(later.ctx.spec_inner().mem, bytes),
        earlier.log.len() <= i < later.log.len(),
        later.log[i].query == (Query::Memory { address, len }),
    ensures
        later.log[i].answer matches Ok(reply) ==> reply matches Reply::Bytes(given)
            && crate::cache::reflects(bytes, address as int, len as nat, Ok(given@)),
{
    assert(comes_from(later.ctx, later.log[i]));
}

/// Whatever was answered, there is a target that could have given the answers.
pub proof fn some_world_explains(trace: Trace) -> (w: World)
    ensures
        w.explains(trace),
{
    World {
        declared: trace.declared,
        limit: trace.limit,
        answers: |t: nat, query: Query|
            if t < trace.log.len() {
                trace.log[t as int].answer
            } else {
                Err(ReadError::UnexpectedReply)
            },
    }
}

/// What could have given the answers of a trace could have given those of its beginning.
pub broadcast proof fn explains_beginning(w: World, later: Trace, earlier: Trace)
    requires
        #[trigger] w.explains(later),
        #[trigger] later.extends(earlier),
    ensures
        w.explains(earlier),
{
    assert forall|i: int|
        #![trigger earlier.log[i]]
        0 <= i < earlier.log.len() implies (w.answers)(i as nat, earlier.log[i].query)
        == earlier.log[i].answer by {
        assert(later.log[i] == earlier.log[i]);
    }
}

/// An extension of an extension is one.
pub broadcast proof fn extends_twice(a: Trace, b: Trace, c: Trace)
    requires
        #[trigger] a.extends(b),
        #[trigger] b.extends(c),
    ensures
        a.extends(c),
{
    assert forall|i: int| c.log.len() <= i < a.log.len() implies comes_from(
        a.ctx,
        #[trigger] a.log[i],
    ) by {
        if i < b.log.len() {
            assert(comes_from(b.ctx, b.log[i]));
        }
    }
}

/// No more is asked than may be asked.
pub broadcast proof fn trace_within_limit<E>(s: &Session<E>)
    ensures
        (#[trigger] s.trace()).now() <= s.trace().limit,
{
}

pub broadcast group group_traces {
    explains_beginning,
    extends_twice,
    trace_within_limit,
}

/// An outcome with its payload as a sequence, a number or the like.
pub open spec fn outcome<T: DeepView>(r: Result<T, ReadError>) -> Result<T::V, ReadError> {
    match r {
        Ok(v) => Ok(v.deep_view()),
        Err(e) => Err(e),
    }
}

/// An outcome with its bytes as a sequence.
pub open spec fn bytes_outcome(r: Result<Vec<u8>, ReadError>) -> Result<Seq<u8>, ReadError> {
    match r {
        Ok(v) => Ok(v@),
        Err(e) => Err(e),
    }
}

/// The questions that are asked of a target. All of them go to its context: of the pointers that
/// readers are given only the addresses count.
pub struct Session<E> {
    engine: E,
    ctx: Ctx,
    declared: Declared,
    left: u64,
    log: Ghost<Seq<Exchange>>,
}

impl<E> Session<E> {
    /// What was asked and answered so far.
    pub closed spec fn trace(&self) -> Trace {
        Trace {
            ctx: self.ctx,
            declared: self.declared,
            limit: self.log@.len() + self.left as nat,
            log: self.log@,
        }
    }

    /// The context of the target.
    pub open spec fn spec_ctx(&self) -> Ctx {
        self.trace().ctx
    }

    /// The version of the engine of the target.
    pub open spec fn version(&self) -> (u16, u16) {
        self.spec_ctx().spec_inner().version
    }

    /// The number of questions that were asked.
    pub open spec fn now(&self) -> nat {
        self.trace().now()
    }

    /// The number of questions that may still be asked.
    pub open spec fn spec_left(&self) -> nat {
        (self.trace().limit - self.trace().now()) as nat
    }

    /// What answers the questions.
    pub closed spec fn spec_engine(&self) -> E {
        self.engine
    }

    /// A session in which questions are asked of `engine` and of the memory of `ctx`, as many as
    /// can be counted.
    pub fn new(engine: E, ctx: Ctx, declared: Declared) -> (s: Self)
        ensures
            s.trace().limit == u64::MAX,
            s.now() == 0,
            s.spec_engine() == engine,
            s.spec_ctx() == ctx,
            s.trace().declared == declared,
    {
        Session::with_limit(engine, ctx, declared, u64::MAX)
    }

    /// A session in which at most `limit` questions may be asked.
    pub fn with_limit(engine: E, ctx: Ctx, declared: Declared, limit: u64) -> (s: Self)
        ensures
            s.trace().limit == limit,
            s.now() == 0,
            s.spec_engine() == engine,
            s.spec_ctx() == ctx,
            s.trace().declared == declared,
    {
        Session { engine, ctx, declared, left: limit, log: Ghost(Seq::empty()) }
    }

    /// The context of the target.
    pub fn ctx(&self) -> (r: &Ctx)
        ensures
            *r == self.spec_ctx(),
    {
        &self.ctx
    }

    /// The number of questions that may still be asked.
    pub fn left(&self) -> (r: u64)
        ensures
            r == self.spec_left(),
    {
        self.left
    }

    /// What answers the questions.
    pub fn into_engine(self) -> (r: E)
        ensures
            r == self.spec_engine(),
    {
        self.engine
    }
}

/// Asks the memory of a context for `len` bytes at `address`.
pub fn ask_memory(ctx: &Ctx, address: u64, len: usize) -> (r: Answer)
    ensures
        memory_may_reply(*ctx, address, len, r),
{
    let mem = &ctx.inner().mem;
    if !mem.can_read(address, len) {
        return Err(ReadError::Broken(Breach::AddressOverflow));
    }
    let given = read_bytes(mem, address, len);
    let ghost a = crate::mem::answer_of(given);
    assert(ctx.spec_inner().mem.may_answer(address, len as nat, a));
    match given {
        Ok(bytes) => Ok(Reply::Bytes(bytes)),
        Err(e) => Err(ReadError::Memory(e)),
    }
}

impl<E: Engine> Session<E> {
    /// Asks a question: of the memory of the context where it is about that, else of the engine.
    pub fn ask(&mut self, query: Query) -> (r: Answer)
        ensures
            final(self).trace().extends(old(self).trace()),
            r is Ok ==> final(self).now() > old(self).now(),
            forall|w: World| #[trigger]
                w.explains(final(self).trace()) ==> w.ask(old(self).now(), query) == (
                    r,
                    final(self).now(),
                ),
    {
        if self.left == 0 {
            return Err(ReadError::BudgetExhausted);
        }
        self.left = self.left - 1;
        let r = match query {
            Query::Memory { address, len } => ask_memory(&self.ctx, address, len),
            _ => self.engine.answer(query),
        };
        proof {
            self.log@ = self.log@.push(Exchange { query, answer: r });
            let i = old(self).log@.len() as int;
            assert(self.trace().log[i].answer == r);
        }
        r
    }

    /// Asks for an address; null where it is null.
    pub fn address(&mut self, query: Query) -> (r: Result<u64, ReadError>)
        ensures
            final(self).trace().extends(old(self).trace()),
            r is Ok ==> final(self).now() > old(self).now(),
            forall|w: World| #[trigger]
                w.explains(final(self).trace()) ==> w.address(old(self).now(), query) == (
                    r,
                    final(self).now(),
                ),
    {
        match self.ask(query) {
            Ok(Reply::Address(a)) => Ok(a),
            Ok(_) => Err(ReadError::UnexpectedReply),
            Err(e) => Err(e),
        }
    }

    /// Asks for an address that is never null. The pointer shares the context of `origin`.
    pub fn pointer<B, T>(&mut self, origin: &Ptr<B>, query: Query) -> (r: Result<
        Ptr<T>,
        ReadError,
    >)
        ensures
            final(self).trace().extends(old(self).trace()),
            r is Ok ==> final(self).now() > old(self).now(),
            r matches Ok(p) ==> p.spec_ctx() == origin.spec_ctx(),
            forall|w: World| #[trigger]
                w.explains(final(self).trace()) ==> w.pointer(old(self).now(), query) == (
                    outcome(r),
                    final(self).now(),
                ),
    {
        match self.address(query) {
            Ok(a) => match Ptr::new(a, origin.ctx().clone()) {
                Ok(p) => Ok(p),
                Err(_) => Err(ReadError::NullPointer),
            },
            Err(e) => Err(e),
        }
    }

    /// Asks for an address that may be null. The pointer shares the context of `origin`.
    pub fn optional<B, T>(&mut self, origin: &Ptr<B>, query: Query) -> (r: Result<
        Option<Ptr<T>>,
        ReadError,
    >)
        ensures
            final(self).trace().extends(old(self).trace()),
            r is Ok ==> final(self).now() > old(self).now(),
            r matches Ok(Some(p)) ==> p.spec_ctx() == origin.spec_ctx(),
            forall|w: World| #[trigger]
                w.explains(final(self).trace()) ==> w.optional(old(self).now(), query) == (
                    outcome(r),
                    final(self).now(),
                ),
    {
        match self.address(query) {
            Ok(a) => match Ptr::new(a, origin.ctx().clone()) {
                Ok(p) => Ok(Some(p)),
                Err(_) => Ok(None),
            },
            Err(e) => Err(e),
        }
    }

    /// Asks for a number.
    pub fn number(&mut self, base: u64, field: NumberField) -> (r: Result<i64, ReadError>)
        ensures
            final(self).trace().extends(old(self).trace()),
            r is Ok ==> final(self).now() > old(self).now(),
            forall|w: World| #[trigger]
                w.explains(final(self).trace()) ==> w.number(old(self).now(), base, field) == (
                    r,
                    final(self).now(),
                ),
    {
        match self.ask(Query::Number { base, field }) {
            Ok(Reply::Number(v)) => Ok(v),
            Ok(_) => Err(ReadError::UnexpectedReply),
            Err(e) => Err(e),
        }
    }

    /// Asks for a byte.
    pub fn byte(&mut self, base: u64, field: ByteField) -> (r: Result<u8, ReadError>)
        ensures
            final(self).trace().extends(old(self).trace()),
            r is Ok ==> final(self).now() > old(self).now(),
            forall|w: World| #[trigger]
                w.explains(final(self).trace()) ==> w.byte(old(self).now(), base, field) == (
                    r,
                    final(self).now(),
                ),
    {
        match self.ask(Query::Byte { base, field }) {
            Ok(Reply::Byte(v)) => match self.declared.get_byte_error(field, v) {
                Some(e) => Err(ReadError::Value(e)),
                None => Ok(v),
            },
            Ok(_) => Err(ReadError::UnexpectedReply),
            Err(e) => Err(e),
        }
    }

    /// Asks for a word.
    pub fn word(&mut self, base: u64, field: WordField) -> (r: Result<u64, ReadError>)
        ensures
            final(self).trace().extends(old(self).trace()),
            r is Ok ==> final(self).now() > old(self).now(),
            forall|w: World| #[trigger]
                w.explains(final(self).trace()) ==> w.word(old(self).now(), base, field) == (
                    r,
                    final(self).now(),
                ),
    {
        match self.ask(Query::Word { base, field }) {
            Ok(Reply::Word(v)) => check(v, self.declared.get_word_bits(field), v),
            Ok(_) => Err(ReadError::UnexpectedReply),
            Err(e) => Err(e),
        }
    }

    /// Asks for a text.
    pub fn text(&mut self, base: u64, field: TextField) -> (r: Result<String, ReadError>)
        ensures
            final(self).trace().extends(old(self).trace()),
            r is Ok ==> final(self).now() > old(self).now(),
            forall|w: World| #[trigger]
                w.explains(final(self).trace()) ==> w.text(old(self).now(), base, field) == (
                    outcome(r),
                    final(self).now(),
                ),
    {
        match self.ask(Query::Text { base, field }) {
            Ok(Reply::Text(v)) => Ok(v),
            Ok(_) => Err(ReadError::UnexpectedReply),
            Err(e) => Err(e),
        }
    }

    /// Asks for a yes or no.
    pub fn flag(&mut self, query: Query) -> (r: Result<bool, ReadError>)
        ensures
            final(self).trace().extends(old(self).trace()),
            r is Ok ==> final(self).now() > old(self).now(),
            forall|w: World| #[trigger]
                w.explains(final(self).trace()) ==> w.flag(old(self).now(), query) == (
                    r,
                    final(self).now(),
                ),
    {
        match self.ask(query) {
            Ok(Reply::Flag(v)) => Ok(v),
            Ok(_) => Err(ReadError::UnexpectedReply),
            Err(e) => Err(e),
        }
    }

    /// Asks for bytes.
    pub fn bytes(&mut self, query: Query) -> (r: Result<Vec<u8>, ReadError>)
        ensures
            final(self).trace().extends(old(self).trace()),
            r is Ok ==> final(self).now() > old(self).now(),
            forall|w: World| #[trigger]
                w.explains(final(self).trace()) ==> w.bytes(old(self).now(), query) == (
                    bytes_outcome(r),
                    final(self).now(),
                ),
    {
        match self.ask(query) {
            Ok(Reply::Bytes(v)) => Ok(v),
            Ok(_) => Err(ReadError::UnexpectedReply),
            Err(e) => Err(e),
        }
    }

    /// Asks for cast flags.
    pub fn cast_flags(&mut self, query: Query) -> (r: Result<EClassCastFlags, ReadError>)
        ensures
            final(self).trace().extends(old(self).trace()),
            r is Ok ==> final(self).now() > old(self).now(),
            forall|w: World| #[trigger]
                w.explains(final(self).trace()) ==> w.cast_flags(old(self).now(), query) == (
                    r,
                    final(self).now(),
                ),
    {
        match self.ask(query) {
            Ok(Reply::CastFlags(v)) => check(v.bits, self.declared.cast_flags, v),
            Ok(_) => Err(ReadError::UnexpectedReply),
            Err(e) => Err(e),
        }
    }

    /// Asks for the flags of an object.
    pub fn object_flags(&mut self, base: u64) -> (r: Result<EObjectFlags, ReadError>)
        ensures
            final(self).trace().extends(old(self).trace()),
            r is Ok ==> final(self).now() > old(self).now(),
            forall|w: World| #[trigger]
                w.explains(final(self).trace()) ==> w.object_flags(old(self).now(), base) == (
                    r,
                    final(self).now(),
                ),
    {
        match self.ask(Query::ObjectFlags { base }) {
            Ok(Reply::ObjectFlags(v)) => check(v.bits as u64, self.declared.object_flags, v),
            Ok(_) => Err(ReadError::UnexpectedReply),
            Err(e) => Err(e),
        }
    }

    /// Asks for the names of an enum with their values.
    pub fn names(&mut self, base: u64) -> (r: Result<Vec<(String, i64)>, ReadError>)
        ensures
            final(self).trace().extends(old(self).trace()),
            r is Ok ==> final(self).now() > old(self).now(),
            forall|w: World| #[trigger]
                w.explains(final(self).trace()) ==> w.names(old(self).now(), base) == (
                    outcome(r),
                    final(self).now(),
                ),
    {
        match self.ask(Query::EnumNames { base }) {
            Ok(Reply::Names(v)) => Ok(v),
            Ok(_) => Err(ReadError::UnexpectedReply),
            Err(e) => Err(e),
        }
    }

    /// Asks for the interfaces of a class.
    pub fn interfaces(&mut self, base: u64) -> (r: Result<Vec<InterfaceEntry>, ReadError>)
        ensures
            final(self).trace().extends(old(self).trace()),
            r is Ok ==> final(self).now() > old(self).now(),
            forall|w: World| #[trigger]
                w.explains(final(self).trace()) ==> w.interfaces(old(self).now(), base) == (
                    match r {
                        Ok(v) => Ok(v@),
                        Err(e) => Err(e),
                    },
                    final(self).now(),
                ),
    {
        match self.ask(Query::Interfaces { base }) {
            Ok(Reply::Interfaces(v)) => Ok(v),
            Ok(_) => Err(ReadError::UnexpectedReply),
            Err(e) => Err(e),
        }
    }

    /// Asks for the value of type `T` in the memory at `address`.
    pub fn value<T: Pod>(&mut self, address: u64) -> (r: Result<T, ReadError>)
        ensures
            final(self).trace().extends(old(self).trace()),
            r is Ok ==> final(self).now() > old(self).now(),
            forall|w: World| #[trigger]
                w.explains(final(self).trace()) ==> w.value::<T>(old(self).now(), address) == (
                    r,
                    final(self).now(),
                ),
    {
        let size: usize = T::size();
        match self.bytes(Query::Memory { address, len: size }) {
            Ok(b) => if b.len() != size {
                Err(ReadError::UnexpectedReply)
            } else {
                match T::try_from_bytes(b.as_slice()) {
                    Ok(v) => Ok(v),
                    Err(e) => Err(ReadError::Value(e)),
                }
            },
            Err(e) => Err(e),
        }
    }
}

} // verus!
