//! The memory of a target, the context that reads go through, and pointers into the target.

use std::marker::PhantomData;
use std::sync::Arc;

use vstd::prelude::*;

use crate::config::BuildConfig;
use crate::pathmap::PathMap;
use crate::pod::{Pod, PodError};
use crate::structs::{StructInfo, StructMember};
use crate::text::same_text;

verus! {

/// Why memory could not be read or written, or what was read is no value.
#[derive(Clone, PartialEq, Eq, Debug)]
pub enum MemError {
    /// The memory cannot be written to.
    WriteUnsupported,
    /// The end of the read lies beyond the address space.
    LengthOverflow,
    /// Fewer bytes than asked for are backed.
    Short { read: usize, total: usize, address: u64 },
    /// The address is null.
    NullPointer,
    /// The bytes are no value of the type.
    Value(PodError),
    /// The source of the memory reported an error.
    Backend(String),
}

/// The memory of a target.
///
/// Memory may change between two reads, so what it answers is a relation: each read gives one of
/// the answers that the memory may give. Memory that says nothing of itself may be asked for
/// anything and may answer anything.
pub trait Mem {
    /// Whether `len` bytes may be asked for at `address`.
    open spec fn admits(&self, address: u64, len: nat) -> bool {
        true
    }

    /// Whether `len` bytes may be handed over to be written at `address`.
    open spec fn admits_write(&self, address: u64, len: nat) -> bool {
        true
    }

    /// Whether a read of `len` bytes at `address` may give `answer`.
    open spec fn may_answer(
        &self,
        address: u64,
        len: nat,
        answer: Result<Seq<u8>, MemError>,
    ) -> bool {
        true
    }

    /// Whether a write of `bytes` at `address` may end with `r`. Memory that cannot be written to
    /// says so each time.
    open spec fn may_write(&self, address: u64, bytes: Seq<u8>, r: Result<(), MemError>) -> bool {
        true
    }

    /// Tests whether `len` bytes may be asked for at `address`.
    fn can_read(&self, address: u64, len: usize) -> (r: bool)
        ensures
            r == self.admits(address, len as nat),
    ;

    /// Fills `buf` with the bytes at `address`.
    fn read_buf(&self, address: u64, buf: &mut [u8]) -> (r: Result<(), MemError>)
        requires
            self.admits(address, old(buf)@.len()),
        ensures
            final(buf)@.len() == old(buf)@.len(),
            self.may_answer(address, old(buf)@.len(), filled(r, final(buf)@)),
    ;

    /// Writes `buf` at `address`.
    fn write_buf(&self, address: u64, buf: &[u8]) -> (r: Result<(), MemError>)
        requires
            self.admits_write(address, buf@.len()),
        ensures
            self.may_write(address, buf@, r),
    ;

    /// Forgets what was kept of earlier reads.
    fn clear_cache(&self) {
    }
}

/// What a write to memory that cannot be written to ends with.
pub open spec fn refused(r: Result<(), MemError>) -> bool {
    r == Err::<(), MemError>(MemError::WriteUnsupported)
}

impl Mem for Box<dyn Mem> {
    open spec fn admits(&self, address: u64, len: nat) -> bool {
        (**self).admits(address, len)
    }

    open spec fn admits_write(&self, address: u64, len: nat) -> bool {
        (**self).admits_write(address, len)
    }

    open spec fn may_answer(
        &self,
        address: u64,
        len: nat,
        answer: Result<Seq<u8>, MemError>,
    ) -> bool {
        (**self).may_answer(address, len, answer)
    }

    open spec fn may_write(&self, address: u64, bytes: Seq<u8>, r: Result<(), MemError>) -> bool {
        (**self).may_write(address, bytes, r)
    }

    fn can_read(&self, address: u64, len: usize) -> (r: bool) {
        (**self).can_read(address, len)
    }

    fn read_buf(&self, address: u64, buf: &mut [u8]) -> (r: Result<(), MemError>) {
        (**self).read_buf(address, buf)
    }

    fn write_buf(&self, address: u64, buf: &[u8]) -> (r: Result<(), MemError>) {
        (**self).write_buf(address, buf)
    }

    fn clear_cache(&self) {
        (**self).clear_cache()
    }
}

/// The answer of a read that returned `r` and left `buf`.
pub open spec fn filled(r: Result<(), MemError>, buf: Seq<u8>) -> Result<Seq<u8>, MemError> {
    match r {
        Ok(_) => Ok(buf),
        Err(e) => Err(e),
    }
}

/// The answer of a read that returned `r`.
pub open spec fn answer_of(r: Result<Vec<u8>, MemError>) -> Result<Seq<u8>, MemError> {
    match r {
        Ok(v) => Ok(v@),
        Err(e) => Err(e),
    }
}

/// Reads `len` bytes at `address`.
pub fn read_bytes<M: Mem + ?Sized>(mem: &M, address: u64, len: usize) -> (r: Result<
    Vec<u8>,
    MemError,
>)
    requires
        mem.admits(address, len as nat),
    ensures
        r matches Ok(bytes) ==> bytes@.len() == len,
        mem.may_answer(address, len as nat, answer_of(r)),
{
    let mut buf: Vec<u8> = vec![0u8; len];
    match mem.read_buf(address, buf.as_mut_slice()) {
        Ok(()) => Ok(buf),
        Err(e) => Err(e),
    }
}

/// A copy of `n` bytes of `bytes` from position `start` on.
pub fn copy_of(bytes: &[u8], start: usize, n: usize) -> (r: Vec<u8>)
    requires
        start + n <= bytes@.len(),
    ensures
        r@ == bytes@.subrange(start as int, start + n),
{
    let total: usize = bytes.len();
    assert(start + n <= total);
    let mut r: Vec<u8> = Vec::new();
    r.extend_from_slice(vstd::slice::slice_subrange(bytes, start, start + n));
    assert(r@ =~= bytes@.subrange(start as int, start + n));
    r
}

/// `buf` with `bytes` from position `start` on.
pub open spec fn overlaid(buf: Seq<u8>, start: int, bytes: Seq<u8>) -> Seq<u8> {
    buf.take(start) + bytes + buf.skip(start + bytes.len())
}

/// Puts `bytes` into `buf` from position `start` on.
pub fn fill(buf: &mut [u8], start: usize, bytes: &[u8])
    requires
        start + bytes@.len() <= old(buf)@.len(),
    ensures
        final(buf)@ == overlaid(old(buf)@, start as int, bytes@),
{
    let ghost before = buf@;
    let total: usize = buf.len();
    let mut i: usize = 0;
    while i < bytes.len()
        invariant
            i <= bytes@.len(),
            start + bytes@.len() <= total,
            total == buf@.len(),
            before == old(buf)@,
            buf@.len() == before.len(),
            forall|k: int|
                0 <= k < buf@.len() ==> #[trigger] buf@[k] == if start <= k < start + i {
                    bytes@[k - start]
                } else {
                    before[k]
                },
        decreases bytes@.len() - i,
    {
        buf[start + i] = bytes[i];
        i = i + 1;
    }
    assert(buf@ =~= overlaid(before, start as int, bytes@));
}

/// The value of type `T` that an answer gives.
pub open spec fn value_of<T: Pod>(answer: Result<Seq<u8>, MemError>) -> Result<T, MemError> {
    match answer {
        Ok(bytes) => match T::decode(bytes) {
            Ok(v) => Ok(v),
            Err(e) => Err(MemError::Value(e)),
        },
        Err(e) => Err(e),
    }
}

/// The first `n` values of type `T` that stand one behind the other in `bytes`, or the error of
/// the first that is none.
pub open spec fn decode_all<T: Pod>(bytes: Seq<u8>, n: nat) -> Result<Seq<T>, PodError>
    decreases n,
{
    if n == 0 {
        Ok(Seq::empty())
    } else {
        match decode_all::<T>(bytes, (n - 1) as nat) {
            Ok(s) => match T::decode(
                bytes.subrange((n - 1) * T::width(), (n * T::width()) as int),
            ) {
                Ok(v) => Ok(s.push(v)),
                Err(e) => Err(e),
            },
            Err(e) => Err(e),
        }
    }
}

/// The `n` values of type `T` that an answer gives.
pub open spec fn values_of<T: Pod>(answer: Result<Seq<u8>, MemError>, n: nat) -> Result<
    Seq<T>,
    MemError,
> {
    match answer {
        Ok(bytes) => match decode_all::<T>(bytes, n) {
            Ok(s) => Ok(s),
            Err(e) => Err(MemError::Value(e)),
        },
        Err(e) => Err(e),
    }
}

proof fn lemma_decode_all_stops<T: Pod>(bytes: Seq<u8>, i: nat, n: nat)
    requires
        i <= n,
        decode_all::<T>(bytes, i) is Err,
    ensures
        decode_all::<T>(bytes, n) == decode_all::<T>(bytes, i),
    decreases n,
{
    if i < n {
        lemma_decode_all_stops::<T>(bytes, i, (n - 1) as nat);
    }
}

/// Reads a value of type `T` at `address`.
pub fn read_value<T: Pod, M: Mem + ?Sized>(mem: &M, address: u64) -> (r: Result<T, MemError>)
    requires
        mem.admits(address, T::width()),
    ensures
        exists|a: Result<Seq<u8>, MemError>| #[trigger]
            mem.may_answer(address, T::width(), a) && r == value_of::<T>(a),
{
    let bytes = read_bytes(mem, address, T::size());
    let ghost answer = answer_of(bytes);
    assert(mem.may_answer(address, T::width(), answer));
    match bytes {
        Ok(bytes) => match T::try_from_bytes(bytes.as_slice()) {
            Ok(v) => Ok(v),
            Err(e) => Err(MemError::Value(e)),
        },
        Err(e) => Err(e),
    }
}

/// What readers of a target share: its memory, where its data lies, and how it is laid out.
pub struct CtxInner {
    pub mem: Box<dyn Mem>,
    pub fnamepool: u64,
    pub structs: PathMap<StructInfo>,
    pub version: (u16, u16),
    pub build_config: BuildConfig,
    pub uobjectarray: u64,
    /// What the pointer to the chunk table is combined with by exclusive or (0 = none).
    pub uobjectarray_xor_key: u64,
    pub image_base_address: u64,
    pub build_change_list: Option<String>,
}

/// A shared context.
pub struct Ctx(Arc<CtxInner>);

impl Clone for Ctx {
    fn clone(&self) -> (r: Self)
        ensures
            r == *self,
    {
        Ctx(self.0.clone())
    }
}

/// Whether `info` has a member of that name at position `i`, and none before.
pub open spec fn member_at(info: StructInfo, name: Seq<char>, i: int) -> bool {
    &&& 0 <= i < info.members@.len()
    &&& info.members@[i].name@ == name
    &&& forall|k: int| 0 <= k < i ==> (#[trigger] info.members@[k]).name@ != name
}

impl Ctx {
    /// What the context holds.
    pub closed spec fn spec_inner(&self) -> CtxInner {
        *self.0
    }

    /// A context that holds `inner`.
    pub fn new(inner: CtxInner) -> (r: Self)
        ensures
            r.spec_inner() == inner,
    {
        Ctx(Arc::new(inner))
    }

    /// What the context holds.
    pub fn inner(&self) -> (r: &CtxInner)
        ensures
            *r == self.spec_inner(),
    {
        &self.0
    }

    /// Fills `buf` with the bytes at `address`.
    pub fn read_buf(&self, address: u64, buf: &mut [u8]) -> (r: Result<(), MemError>)
        requires
            self.spec_inner().mem.admits(address, old(buf)@.len()),
        ensures
            final(buf)@.len() == old(buf)@.len(),
            self.spec_inner().mem.may_answer(address, old(buf)@.len(), filled(r, final(buf)@)),
    {
        self.0.mem.read_buf(address, buf)
    }

    /// Reads a value at `address`.
    pub fn read<T: Pod>(&self, address: u64) -> (r: Result<T, MemError>)
        requires
            self.spec_inner().mem.admits(address, T::width()),
        ensures
            exists|a: Result<Seq<u8>, MemError>| #[trigger]
                self.spec_inner().mem.may_answer(address, T::width(), a) && r == value_of::<T>(a),
    {
        read_value(&self.0.mem, address)
    }

    /// Reads `count` values that stand one behind the other at `address`.
    pub fn read_vec<T: Pod>(&self, address: u64, count: usize) -> (r: Result<Vec<T>, MemError>)
        requires
            count * T::width() <= usize::MAX,
            self.spec_inner().mem.admits(address, (count * T::width()) as nat),
        ensures
            exists|a: Result<Seq<u8>, MemError>| #[trigger]
                self.spec_inner().mem.may_answer(address, (count * T::width()) as nat, a)
                    && values_of::<T>(a, count as nat) == match r {
                    Ok(v) => Ok::<Seq<T>, MemError>(v@),
                    Err(e) => Err(e),
                },
    {
        let size: usize = T::size();
        let len: usize = count * size;
        let answer = read_bytes(&self.0.mem, address, len);
        let ghost given = answer_of(answer);
        assert(self.spec_inner().mem.may_answer(address, (count * T::width()) as nat, given));
        let buf = match answer {
            Ok(buf) => buf,
            Err(e) => {
                return Err(e);
            },
        };
        let mut result: Vec<T> = Vec::new();
        let mut i: usize = 0;
        while i < count
            invariant
                i <= count,
                size == T::width(),
                count * size <= usize::MAX,
                buf@.len() == count * size,
                given == Ok::<Seq<u8>, MemError>(buf@),
                self.spec_inner().mem.may_answer(address, (count * T::width()) as nat, given),
                decode_all::<T>(buf@, i as nat) == Ok::<Seq<T>, PodError>(result@),
            decreases count - i,
        {
            proof {
                assert((i + 1) * size <= count * size) by (nonlinear_arith)
                    requires
                        i < count,
                ;
                assert((i + 1) * size == i * size + size) by (nonlinear_arith);
            }
            let start: usize = i * size;
            let end: usize = start + size;
            let part = vstd::slice::slice_subrange(buf.as_slice(), start, end);
            match T::try_from_bytes(part) {
                Ok(v) => {
                    result.push(v);
                },
                Err(e) => {
                    proof {
                        assert(decode_all::<T>(buf@, (i + 1) as nat) == Err::<Seq<T>, PodError>(
                            e,
                        ));
                        lemma_decode_all_stops::<T>(buf@, (i + 1) as nat, count as nat);
                    }
                    return Err(MemError::Value(e));
                },
            }
            i = i + 1;
        }
        Ok(result)
    }

    /// Writes `buf` at `address`.
    pub fn write_buf(&self, address: u64, buf: &[u8]) -> (r: Result<(), MemError>)
        requires
            self.spec_inner().mem.admits_write(address, buf@.len()),
        ensures
            self.spec_inner().mem.may_write(address, buf@, r),
    {
        self.0.mem.write_buf(address, buf)
    }

    /// Writes the bytes of `value` at `address`.
    pub fn write<T: Pod>(&self, address: u64, value: &T) -> (r: Result<(), MemError>)
        requires
            self.spec_inner().mem.admits_write(address, T::width()),
        ensures
            self.spec_inner().mem.may_write(address, value.encode(), r),
    {
        proof {
            value.decode_of_encode();
        }
        let bytes = value.to_bytes();
        self.0.mem.write_buf(address, bytes.as_slice())
    }

    /// Forgets what the memory kept of earlier reads.
    pub fn clear_cache(&self) {
        self.0.mem.clear_cache();
    }

    /// The layout of a struct.
    pub fn get_struct(&self, struct_name: &str) -> (r: &StructInfo)
        requires
            self.spec_inner().structs@.dom().contains(struct_name@),
        ensures
            *r == self.spec_inner().structs@[struct_name@],
    {
        match self.0.structs.get(struct_name) {
            Some(s) => s,
            None => vstd::pervasive::unreached(),
        }
    }

    /// Whether the layouts hold that member of that struct.
    pub open spec fn has_member(&self, struct_name: Seq<char>, member_name: Seq<char>) -> bool {
        &&& self.spec_inner().structs@.dom().contains(struct_name)
        &&& exists|i: int|
            member_at(self.spec_inner().structs@[struct_name], member_name, i)
    }

    /// The first member of that name of a struct.
    pub open spec fn member_of(
        &self,
        struct_name: Seq<char>,
        member_name: Seq<char>,
    ) -> StructMember {
        let info = self.spec_inner().structs@[struct_name];
        info.members@[choose|i: int| member_at(info, member_name, i)]
    }

    /// The layout of a member of a struct.
    pub fn get_struct_member(&self, struct_name: &str, member_name: &str) -> (r: &StructMember)
        requires
            self.has_member(struct_name@, member_name@),
        ensures
            *r == self.member_of(struct_name@, member_name@),
    {
        let info = self.get_struct(struct_name);
        let ghost w = choose|i: int| member_at(*info, member_name@, i);
        let mut i: usize = 0;
        while i < info.members.len()
            invariant
                i <= w,
                member_at(*info, member_name@, w),
                w == (choose|i: int| member_at(*info, member_name@, i)),
                *info == self.spec_inner().structs@[struct_name@],
                forall|k: int|
                    0 <= k < i ==> (#[trigger] info.members@[k]).name@ != member_name@,
            decreases info.members@.len() - i,
        {
            if same_text(info.members[i].name.as_str(), member_name) {
                assert(i == w);
                return &info.members[i];
            }
            i = i + 1;
        }
        vstd::pervasive::unreached()
    }

    /// The offset of a member of a struct.
    pub fn struct_member(&self, struct_name: &str, member_name: &str) -> (r: usize)
        requires
            self.has_member(struct_name@, member_name@),
        ensures
            r == self.member_of(struct_name@, member_name@).offset as usize,
    {
        self.get_struct_member(struct_name, member_name).offset as usize
    }

    /// The size of a member of a struct.
    pub fn struct_member_size(&self, struct_name: &str, member_name: &str) -> (r: usize)
        requires
            self.has_member(struct_name@, member_name@),
        ensures
            r == self.member_of(struct_name@, member_name@).size as usize,
    {
        self.get_struct_member(struct_name, member_name).size as usize
    }

    /// The version of the engine.
    pub fn ue_version(&self) -> (r: (u16, u16))
        ensures
            r == self.spec_inner().version,
    {
        self.0.version
    }
}

proof fn lemma_decode_all<T: Pod>(bytes: Seq<u8>, n: nat)
    ensures
        decode_all::<T>(bytes, n) matches Ok(v) ==> v.len() == n && forall|i: int|
            0 <= i < n ==> T::decode(
                bytes.subrange(i * T::width(), (i + 1) * T::width()),
            ) == Ok::<T, PodError>(#[trigger] v[i]),
        (forall|i: int|
            #![trigger bytes.subrange(i * T::width(), (i + 1) * T::width())]
            0 <= i < n ==> T::decode(
                bytes.subrange(i * T::width(), (i + 1) * T::width()),
            ) is Ok) ==> decode_all::<T>(bytes, n) is Ok,
    decreases n,
{
    if n > 0 {
        lemma_decode_all::<T>(bytes, (n - 1) as nat);
        let last = bytes.subrange((n - 1) * T::width(), (n - 1 + 1) * T::width());
        assert(last == bytes.subrange((n - 1) * T::width(), (n * T::width()) as int));
        if let Ok(v) = decode_all::<T>(bytes, n) {
            let before = decode_all::<T>(bytes, (n - 1) as nat)->Ok_0;
            assert forall|i: int| 0 <= i < n implies T::decode(
                bytes.subrange(i * T::width(), (i + 1) * T::width()),
            ) == Ok::<T, PodError>(#[trigger] v[i]) by {
                if i < n - 1 {
                    assert(v[i] == before[i]);
                }
            }
        }
    }
}

proof fn lemma_item_bounds(i: int, count: nat, width: nat)
    requires
        0 <= i < count,
    ensures
        0 <= i * width,
        (i + 1) * width == i * width + width,
        (i + 1) * width <= count * width,
{
    assert((i + 1) * width <= count * width) by (nonlinear_arith)
        requires
            i < count,
    ;
    assert((i + 1) * width == i * width + width) by (nonlinear_arith);
    assert(0 <= i * width) by (nonlinear_arith)
        requires
            0 <= i,
    ;
}

proof fn lemma_same_bytes(
    bytes: spec_fn(int) -> Option<u8>,
    address: int,
    whole: Seq<u8>,
    from: int,
    part: Result<Seq<u8>, MemError>,
    width: nat,
)
    requires
        crate::cache::reflects(bytes, address, whole.len(), Ok(whole)),
        0 <= from,
        from + width <= whole.len(),
        crate::cache::reflects(bytes, address + from, width, part),
    ensures
        part == Ok::<Seq<u8>, MemError>(whole.subrange(from, from + width)),
{
    match part {
        Ok(given) => {
            assert forall|k: int| 0 <= k < width implies given[k] == whole[from + k] by {
                assert(bytes(address + from + k) == Some(given[k]));
                assert(bytes(address + (from + k)) == Some(whole[from + k]));
            }
            assert(given =~= whole.subrange(from, from + width));
        },
        Err(_) => {
            let k = choose|k: int| 0 <= k < width && #[trigger] bytes(address + from + k) is None;
            assert(bytes(address + (from + k)) == Some(whole[from + k]));
        },
    }
}

/// Whether reads of `count` values one by one may give those answers.
pub open spec fn read_singly<T: Pod>(
    ctx: Ctx,
    address: u64,
    count: nat,
    singles: Seq<Result<Seq<u8>, MemError>>,
) -> bool {
    &&& singles.len() == count
    &&& forall|i: int|
        0 <= i < count ==> ctx.spec_inner().mem.may_answer(
            (address + i * T::width()) as u64,
            T::width(),
            #[trigger] singles[i],
        )
}

/// Reading values together is reading them one by one: over a memory that always has the same
/// bytes, values that stand one behind the other can be read together just where each of them can
/// be read, and are the same then.
pub proof fn reading_together_is_reading_singly<T: Pod>(
    ctx: Ctx,
    bytes: spec_fn(int) -> Option<u8>,
    address: u64,
    count: nat,
    answer: Result<Seq<u8>, MemError>,
    singles: Seq<Result<Seq<u8>, MemError>>,
)
    requires
        crate::cache::steady(ctx.spec_inner().mem, bytes),
        address + count * T::width() <= u64::MAX,
        ctx.spec_inner().mem.may_answer(address, count * T::width(), answer),
        read_singly::<T>(ctx, address, count, singles),
    ensures
        values_of::<T>(answer, count) is Ok <==> forall|i: int|
            0 <= i < count ==> value_of::<T>(#[trigger] singles[i]) is Ok,
        values_of::<T>(answer, count) matches Ok(v) ==> v.len() == count && forall|i: int|
            0 <= i < count ==> value_of::<T>(#[trigger] singles[i]) == Ok::<T, MemError>(v[i]),
{
    let width = T::width();
    assert forall|i: int| 0 <= i < count implies crate::cache::reflects(
        bytes,
        address + i * width,
        width,
        #[trigger] singles[i],
    ) by {
        lemma_item_bounds(i, count, width);
    }
    match answer {
        Ok(whole) => {
            lemma_decode_all::<T>(whole, count);
            assert forall|i: int| 0 <= i < count implies #[trigger] singles[i] == Ok::<
                Seq<u8>,
                MemError,
            >(whole.subrange(i * width, (i + 1) * width)) by {
                lemma_item_bounds(i, count, width);
                lemma_same_bytes(bytes, address as int, whole, i * width, singles[i], width);
            }
            if let Ok(v) = values_of::<T>(answer, count) {
                assert forall|i: int| 0 <= i < count implies value_of::<T>(#[trigger] singles[i])
                    == Ok::<T, MemError>(v[i]) by {
                    assert(T::decode(whole.subrange(i * width, (i + 1) * width)) == Ok::<
                        T,
                        PodError,
                    >(v[i]));
                }
            }
            if forall|i: int| 0 <= i < count ==> value_of::<T>(#[trigger] singles[i]) is Ok {
                assert forall|i: int|
                    #![trigger whole.subrange(i * width, (i + 1) * width)]
                    0 <= i < count implies T::decode(
                    whole.subrange(i * width, (i + 1) * width),
                ) is Ok by {
                    assert(value_of::<T>(singles[i]) is Ok);
                }
            }
        },
        Err(_) => {
            let len = count * width;
            let k = choose|k: int| 0 <= k < len && #[trigger] bytes(address + k) is None;
            let i = k / (width as int);
            assert(width > 0) by (nonlinear_arith)
                requires
                    len == count * width,
                    len > 0,
            ;
            assert(0 <= i < count && i * width <= k < (i + 1) * width) by (nonlinear_arith)
                requires
                    width > 0,
                    len == count * width,
                    0 <= k < len,
                    i == k / (width as int),
            ;
            lemma_item_bounds(i, count, width);
            if let Ok(given) = singles[i] {
                let at = k - i * width;
                assert(bytes(address + i * width + at) == Some(given[at]));
            }
            assert(value_of::<T>(singles[i]) is Err);
        },
    }
}

/// An address that is not null.
#[derive(Clone, Copy)]
pub struct NonZeroAddress {
    value: u64,
}

impl NonZeroAddress {
    #[verifier::type_invariant]
    spec fn not_null(self) -> bool {
        self.value != 0
    }

    /// The address.
    pub closed spec fn spec_get(self) -> u64 {
        self.value
    }

    /// `value`, unless it is null.
    pub fn new(value: u64) -> (r: Option<Self>)
        ensures
            match r {
                Some(a) => value != 0 && a.spec_get() == value,
                None => value == 0,
            },
    {
        if value == 0 {
            None
        } else {
            Some(NonZeroAddress { value })
        }
    }

    /// The address.
    pub fn get(self) -> (r: u64)
        ensures
            r == self.spec_get(),
            r != 0,
    {
        proof {
            use_type_invariant(&self);
        }
        self.value
    }
}

/// A pointer to a `T` in the target.
pub struct Ptr<T> {
    address: NonZeroAddress,
    ctx: Ctx,
    _type: PhantomData<T>,
}

impl<T> DeepView for Ptr<T> {
    type V = u64;

    open spec fn deep_view(&self) -> u64 {
        self.addr()
    }
}

impl<T> Clone for Ptr<T> {
    fn clone(&self) -> (r: Self)
        ensures
            r.addr() == self.addr(),
            r.spec_ctx() == self.spec_ctx(),
    {
        self.cast::<T>()
    }
}

impl<T> Ptr<T> {
    /// The address that is pointed to.
    pub closed spec fn addr(&self) -> u64 {
        self.address.spec_get()
    }

    /// The context that reads go through.
    pub closed spec fn spec_ctx(&self) -> Ctx {
        self.ctx
    }

    /// A pointer to `address`, unless that is null.
    pub fn new(address: u64, ctx: Ctx) -> (r: Result<Self, MemError>)
        ensures
            match r {
                Ok(p) => address != 0 && p.addr() == address && p.spec_ctx() == ctx,
                Err(e) => address == 0 && e == MemError::NullPointer,
            },
    {
        match NonZeroAddress::new(address) {
            Some(address) => Ok(Self::new_non_zero(address, ctx)),
            None => Err(MemError::NullPointer),
        }
    }

    /// A pointer to `address`.
    pub fn new_non_zero(address: NonZeroAddress, ctx: Ctx) -> (r: Self)
        ensures
            r.addr() == address.spec_get(),
            r.spec_ctx() == ctx,
    {
        Ptr { address, ctx, _type: PhantomData }
    }

    /// The context that reads go through.
    pub fn ctx(&self) -> (r: &Ctx)
        ensures
            *r == self.spec_ctx(),
    {
        &self.ctx
    }

    /// The address that is pointed to.
    pub fn address(&self) -> (r: u64)
        ensures
            r == self.addr(),
            r != 0,
    {
        self.address.get()
    }

    /// A pointer to what `map` makes of the address, unless that is null.
    pub fn map<F: FnOnce(u64) -> u64>(&self, map: F) -> (r: Result<Self, MemError>)
        requires
            map.requires((self.addr(),)),
        ensures
            match r {
                Ok(p) => map.ensures((self.addr(),), p.addr()) && p.addr() != 0 && p.spec_ctx()
                    == self.spec_ctx(),
                Err(e) => map.ensures((self.addr(),), 0) && e == MemError::NullPointer,
            },
    {
        Self::new(map(self.address.get()), self.ctx.clone())
    }

    /// The same pointer, to a value of another type.
    pub fn cast<O>(&self) -> (r: Ptr<O>)
        ensures
            r.addr() == self.addr(),
            r.spec_ctx() == self.spec_ctx(),
    {
        Ptr::<O>::new_non_zero(self.address, self.ctx.clone())
    }

    /// A pointer to the byte `n` bytes further on.
    pub fn byte_offset(&self, n: usize) -> (r: Self)
        requires
            self.addr() + n <= u64::MAX,
        ensures
            r.addr() == self.addr() + n,
            r.spec_ctx() == self.spec_ctx(),
    {
        let address = self.address.get() + n as u64;
        match NonZeroAddress::new(address) {
            Some(address) => Self::new_non_zero(address, self.ctx.clone()),
            None => vstd::pervasive::unreached(),
        }
    }
}

impl<T: Pod> Ptr<T> {
    /// A pointer to the `n`th value behind this one.
    pub fn offset(&self, n: usize) -> (r: Self)
        requires
            n * T::width() <= usize::MAX,
            self.addr() + n * T::width() <= u64::MAX,
        ensures
            r.addr() == self.addr() + n * T::width(),
            r.spec_ctx() == self.spec_ctx(),
    {
        let size: usize = T::size();
        self.byte_offset(n * size)
    }

    /// Reads the value.
    pub fn read(&self) -> (r: Result<T, MemError>)
        requires
            self.spec_ctx().spec_inner().mem.admits(self.addr(), T::width()),
        ensures
            exists|a: Result<Seq<u8>, MemError>| #[trigger]
                self.spec_ctx().spec_inner().mem.may_answer(self.addr(), T::width(), a) && r
                    == value_of::<T>(a),
    {
        self.ctx.read(self.address.get())
    }

    /// Reads the value and those behind it, `count` in all.
    pub fn read_vec(&self, count: usize) -> (r: Result<Vec<T>, MemError>)
        requires
            count * T::width() <= usize::MAX,
            self.spec_ctx().spec_inner().mem.admits(self.addr(), (count * T::width()) as nat),
        ensures
            exists|a: Result<Seq<u8>, MemError>| #[trigger]
                self.spec_ctx().spec_inner().mem.may_answer(
                    self.addr(),
                    (count * T::width()) as nat,
                    a,
                ) && values_of::<T>(a, count as nat) == match r {
                    Ok(v) => Ok::<Seq<T>, MemError>(v@),
                    Err(e) => Err(e),
                },
    {
        self.ctx.read_vec(self.address.get(), count)
    }
}

/// The address in a slot for a pointer that is never null.
pub open spec fn pointer_in(answer: Result<Seq<u8>, MemError>) -> Result<u64, MemError> {
    match value_of::<u64>(answer) {
        Ok(a) => if a == 0 {
            Err(MemError::NullPointer)
        } else {
            Ok(a)
        },
        Err(e) => Err(e),
    }
}

/// The address in a slot for a pointer that may be null.
pub open spec fn optional_pointer_in(answer: Result<Seq<u8>, MemError>) -> Result<
    Option<u64>,
    MemError,
> {
    match value_of::<u64>(answer) {
        Ok(a) => if a == 0 {
            Ok(None)
        } else {
            Ok(Some(a))
        },
        Err(e) => Err(e),
    }
}

impl<T> Ptr<Ptr<T>> {
    /// A pointer to the `n`th slot behind this one.
    pub fn offset(&self, n: usize) -> (r: Self)
        requires
            n * 8 <= usize::MAX,
            self.addr() + n * 8 <= u64::MAX,
        ensures
            r.addr() == self.addr() + n * 8,
            r.spec_ctx() == self.spec_ctx(),
    {
        self.byte_offset(n * 8)
    }

    /// Reads the pointer in the slot.
    pub fn read(&self) -> (r: Result<Ptr<T>, MemError>)
        requires
            self.spec_ctx().spec_inner().mem.admits(self.addr(), 8),
        ensures
            exists|a: Result<Seq<u8>, MemError>| #[trigger]
                self.spec_ctx().spec_inner().mem.may_answer(self.addr(), 8, a) && match r {
                    Ok(p) => pointer_in(a) == Ok::<u64, MemError>(p.addr()) && p.spec_ctx()
                        == self.spec_ctx(),
                    Err(e) => pointer_in(a) == Err::<u64, MemError>(e),
                },
    {
        match self.ctx.read::<u64>(self.address.get()) {
            Ok(addr) => {
                let target = |_old: u64| -> (new: u64)
                    ensures
                        new == addr,
                    { addr };
                match self.map(target) {
                    Ok(p) => Ok(p.cast()),
                    Err(e) => Err(e),
                }
            },
            Err(e) => Err(e),
        }
    }
}

impl<T> Ptr<Option<Ptr<T>>> {
    /// A pointer to the `n`th slot behind this one.
    pub fn offset(&self, n: usize) -> (r: Self)
        requires
            n * 8 <= usize::MAX,
            self.addr() + n * 8 <= u64::MAX,
        ensures
            r.addr() == self.addr() + n * 8,
            r.spec_ctx() == self.spec_ctx(),
    {
        self.byte_offset(n * 8)
    }

    /// Reads the pointer in the slot, if it is not null.
    pub fn read(&self) -> (r: Result<Option<Ptr<T>>, MemError>)
        requires
            self.spec_ctx().spec_inner().mem.admits(self.addr(), 8),
        ensures
            exists|a: Result<Seq<u8>, MemError>| #[trigger]
                self.spec_ctx().spec_inner().mem.may_answer(self.addr(), 8, a) && match r {
                    Ok(Some(p)) => optional_pointer_in(a) == Ok::<Option<u64>, MemError>(
                        Some(p.addr()),
                    ) && p.spec_ctx() == self.spec_ctx(),
                    Ok(None) => optional_pointer_in(a) == Ok::<Option<u64>, MemError>(None),
                    Err(e) => optional_pointer_in(a) == Err::<Option<u64>, MemError>(e),
                },
    {
        match self.ctx.read::<u64>(self.address.get()) {
            Ok(addr) => {
                if addr != 0 {
                    let target = |_old: u64| -> (new: u64)
                        ensures
                            new == addr,
                        { addr };
                    match self.map(target) {
                        Ok(p) => Ok(Some(p.cast())),
                        Err(e) => Err(e),
                    }
                } else {
                    Ok(None)
                }
            },
            Err(e) => Err(e),
        }
    }
}

/// An array of the engine: a pointer to its items, then their number.
#[derive(Clone, Copy)]
pub struct FScriptArray;

impl Ptr<FScriptArray> {
    /// The slot with the pointer to the items.
    pub fn data(&self) -> (r: Ptr<Option<Ptr<()>>>)
        ensures
            r.addr() == self.addr(),
            r.spec_ctx() == self.spec_ctx(),
    {
        self.byte_offset(0).cast()
    }

    /// The number of items.
    pub fn num(&self) -> (r: Ptr<u32>)
        requires
            self.addr() + 8 <= u64::MAX,
        ensures
            r.addr() == self.addr() + 8,
            r.spec_ctx() == self.spec_ctx(),
    {
        self.byte_offset(8).cast()
    }
}

/// Bytes that are put into a buffer stand there from their place on, and the rest of the buffer
/// stays as it is.
pub proof fn bytes_are_put_in_place(buf: Seq<u8>, start: int, bytes: Seq<u8>)
    requires
        0 <= start,
        start + bytes.len() <= buf.len(),
    ensures
        overlaid(buf, start, bytes).len() == buf.len(),
        forall|k: int|
            0 <= k < buf.len() ==> #[trigger] overlaid(buf, start, bytes)[k] == if start <= k
                < start + bytes.len() {
                bytes[k - start]
            } else {
                buf[k]
            },
{
}

/// A member of a struct is found just where the layout has one of that name, and is the first of
/// them.
pub proof fn members_are_found_by_name(ctx: Ctx, struct_name: Seq<char>, member_name: Seq<char>)
    ensures
        ctx.has_member(struct_name, member_name) <==> {
            &&& ctx.spec_inner().structs@.dom().contains(struct_name)
            &&& exists|i: int|
                0 <= i < ctx.spec_inner().structs@[struct_name].members@.len() && (
                #[trigger] ctx.spec_inner().structs@[struct_name].members@[i]).name@ == member_name
        },
        ctx.has_member(struct_name, member_name) ==> {
            let members = ctx.spec_inner().structs@[struct_name].members@;
            exists|i: int|
                0 <= i < members.len() && ctx.member_of(struct_name, member_name)
                    == #[trigger] members[i] && members[i].name@ == member_name && forall|k: int|
                    0 <= k < i ==> (#[trigger] members[k]).name@ != member_name
        },
{
    let info = ctx.spec_inner().structs@[struct_name];
    let members = info.members@;
    if ctx.spec_inner().structs@.dom().contains(struct_name) && exists|i: int|
        0 <= i < members.len() && (#[trigger] members[i]).name@ == member_name {
        let i = choose|i: int| 0 <= i < members.len() && (#[trigger] members[i]).name@
            == member_name;
        lemma_first_member(info, member_name, i);
    }
    if ctx.has_member(struct_name, member_name) {
        let i = choose|i: int| member_at(info, member_name, i);
        assert(member_at(info, member_name, i));
        assert(members[i].name@ == member_name);
    }
}

proof fn lemma_first_member(info: StructInfo, name: Seq<char>, i: int)
    requires
        0 <= i < info.members@.len(),
        info.members@[i].name@ == name,
    ensures
        exists|k: int| member_at(info, name, k),
    decreases i,
{
    if forall|k: int| 0 <= k < i ==> (#[trigger] info.members@[k]).name@ != name {
        assert(member_at(info, name, i));
    } else {
        let k = choose|k: int| 0 <= k < i && (#[trigger] info.members@[k]).name@ == name;
        lemma_first_member(info, name, k);
    }
}

/// A slot holds a pointer just where its eight bytes are read and do not spell null. A slot that
/// may be empty is so where they do; it is an error else.
pub proof fn null_is_no_pointer(answer: Result<Seq<u8>, MemError>)
    requires
        answer matches Ok(bytes) ==> bytes.len() == 8,
    ensures
        match answer {
            Ok(bytes) => {
                let a = crate::pod::spelled(bytes);
                &&& a == 0 ==> pointer_in(answer) == Err::<u64, MemError>(MemError::NullPointer)
                    && optional_pointer_in(answer) == Ok::<Option<u64>, MemError>(None)
                &&& a != 0 ==> pointer_in(answer) == Ok::<u64, MemError>(a as u64)
                    && optional_pointer_in(answer) == Ok::<Option<u64>, MemError>(Some(a as u64))
            },
            Err(e) => pointer_in(answer) == Err::<u64, MemError>(e) && optional_pointer_in(answer)
                == Err::<Option<u64>, MemError>(e),
        },
{
    if let Ok(bytes) = answer {
        crate::pod::numbers_are_spelled_in_bytes(bytes);
    }
}

/// Pointers move by bytes, and by whole values where they point to values; those to slots move by
/// eight bytes. What they go through stays the same.
pub proof fn pointers_move_by_what_they_point_to<T, V: Pod>(
    n: usize,
    by_bytes: (Ptr<T>, Ptr<T>),
    by_values: (Ptr<V>, Ptr<V>),
    by_slots: (Ptr<Ptr<T>>, Ptr<Ptr<T>>),
    by_options: (Ptr<Option<Ptr<T>>>, Ptr<Option<Ptr<T>>>),
)
    requires
        call_ensures(Ptr::<T>::byte_offset, (&by_bytes.0, n), by_bytes.1),
        call_ensures(Ptr::<V>::offset, (&by_values.0, n), by_values.1),
        call_ensures(Ptr::<Ptr<T>>::offset, (&by_slots.0, n), by_slots.1),
        call_ensures(Ptr::<Option<Ptr<T>>>::offset, (&by_options.0, n), by_options.1),
    ensures
        by_bytes.1.addr() == by_bytes.0.addr() + n,
        by_values.1.addr() == by_values.0.addr() + n * V::width(),
        by_slots.1.addr() == by_slots.0.addr() + n * 8,
        by_options.1.addr() == by_options.0.addr() + n * 8,
        by_bytes.1.spec_ctx() == by_bytes.0.spec_ctx(),
        by_values.1.spec_ctx() == by_values.0.spec_ctx(),
        by_slots.1.spec_ctx() == by_slots.0.spec_ctx(),
        by_options.1.spec_ctx() == by_options.0.spec_ctx(),
{
}

/// An array begins with the slot of its items, and their number stands eight bytes behind.
pub proof fn arrays_begin_with_their_items(
    array: Ptr<FScriptArray>,
    data: Ptr<Option<Ptr<()>>>,
    num: Ptr<u32>,
)
    requires
        call_ensures(Ptr::<FScriptArray>::data, (&array,), data),
        call_ensures(Ptr::<FScriptArray>::num, (&array,), num),
    ensures
        data.addr() == array.addr(),
        num.addr() == array.addr() + 8,
{
}

/// A pointer points to the address that it is made of, and there is none to null.
pub proof fn pointers_point_where_they_are_told<T>(
    address: u64,
    ctx: Ctx,
    r: Result<Ptr<T>, MemError>,
)
    requires
        call_ensures(Ptr::<T>::new, (address, ctx), r),
    ensures
        match r {
            Ok(p) => p.addr() == address && address != 0 && p.spec_ctx() == ctx,
            Err(e) => address == 0 && e == MemError::NullPointer,
        },
{
}

} // verus!
