//! Plain values and the bytes they are stored as.

use vstd::prelude::*;

verus! {

/// Why bytes are no value of a type.
#[derive(Clone, Copy, PartialEq, Eq, Debug, Structural)]
pub enum PodError {
    /// Bits that the flag type does not declare.
    InvalidBits { bits: u64 },
    /// A discriminant that the enum does not declare.
    InvalidDiscriminant { discriminant: u8 },
}

/// The number that `s` spells, least significant byte first.
pub open spec fn le(s: Seq<u8>) -> nat
    decreases s.len(),
{
    if s.len() == 0 {
        0
    } else {
        s[0] as nat + 256 * le(s.skip(1))
    }
}

/// The `width` lowest bytes of `n`, least significant byte first.
pub open spec fn le_digits(n: nat, width: nat) -> Seq<u8>
    decreases width,
{
    if width == 0 {
        Seq::empty()
    } else {
        seq![(n % 256) as u8] + le_digits(n / 256, (width - 1) as nat)
    }
}

/// 256 to the power of `n`.
pub open spec fn byte_power(n: nat) -> nat
    decreases n,
{
    if n == 0 {
        1
    } else {
        256 * byte_power((n - 1) as nat)
    }
}

/// Reading back what was spelled gives the number.
pub proof fn le_of_digits(n: nat, width: nat)
    requires
        n < byte_power(width),
    ensures
        le_digits(n, width).len() == width,
        le(le_digits(n, width)) == n,
    decreases width,
{
    if width > 0 {
        le_of_digits(n / 256, (width - 1) as nat);
        assert(le_digits(n, width).skip(1) =~= le_digits(n / 256, (width - 1) as nat));
    }
}

/// Spelling a number that was read gives its bytes back.
pub proof fn digits_of_le(s: Seq<u8>)
    ensures
        le(s) < byte_power(s.len()),
        le_digits(le(s), s.len()) == s,
    decreases s.len(),
{
    if s.len() > 0 {
        digits_of_le(s.skip(1));
        assert(le(s) / 256 == le(s.skip(1)));
        assert(le(s) % 256 == s[0]);
        assert(le_digits(le(s), s.len()) =~= s);
    } else {
        assert(le_digits(le(s), s.len()) =~= s);
    }
}

proof fn lemma_powers()
    ensures
        byte_power(1) == 0x100,
        byte_power(2) == 0x1_0000,
        byte_power(4) == 0x1_0000_0000,
        byte_power(8) == 0x1_0000_0000_0000_0000,
{
    reveal_with_fuel(byte_power, 9);
}

/// The number in two's complement that `n` stands for, of `2 * half` in all.
pub open spec fn twos(n: nat, half: nat) -> int {
    if n < half {
        n as int
    } else {
        n - 2 * half
    }
}

/// The number whose two's complement is `twos`.
pub open spec fn untwos(v: int, half: nat) -> nat {
    if v < 0 {
        (v + 2 * half) as nat
    } else {
        v as nat
    }
}

/// Calls `bytemuck::pod_read_unaligned` for `u8`, which panics unless it is given one byte, and
/// returns that byte.
#[verifier::external_body]
fn pod_read_u8(bytes: &[u8]) -> (r: u8)
    requires
        bytes@.len() == 1,
    ensures
        r == bytes@[0],
{
    bytemuck::pod_read_unaligned(bytes)
}

/// Calls `bytemuck::pod_read_unaligned` for `u16`, which panics unless it is given two bytes, and
/// returns the number that they are stored as. `from_le` makes of it the number that they spell
/// with the least significant byte first, whatever the byte order of the machine.
#[verifier::external_body]
fn pod_read_u16(bytes: &[u8]) -> (r: u16)
    requires
        bytes@.len() == 2,
    ensures
        r == le(bytes@),
{
    u16::from_le(bytemuck::pod_read_unaligned(bytes))
}

/// Calls `bytemuck::pod_read_unaligned` for `u32`, which panics unless it is given four bytes, and
/// returns the number that they are stored as. `from_le` makes of it the number that they spell
/// with the least significant byte first, whatever the byte order of the machine.
#[verifier::external_body]
fn pod_read_u32(bytes: &[u8]) -> (r: u32)
    requires
        bytes@.len() == 4,
    ensures
        r == le(bytes@),
{
    u32::from_le(bytemuck::pod_read_unaligned(bytes))
}

/// Calls `bytemuck::pod_read_unaligned` for `u64`, which panics unless it is given eight bytes,
/// and returns the number that they are stored as. `from_le` makes of it the number that they
/// spell with the least significant byte first, whatever the byte order of the machine.
#[verifier::external_body]
fn pod_read_u64(bytes: &[u8]) -> (r: u64)
    requires
        bytes@.len() == 8,
    ensures
        r == le(bytes@),
{
    u64::from_le(bytemuck::pod_read_unaligned(bytes))
}

/// The `width` lowest bytes of `n`, least significant byte first.
fn spell(n: u64, width: usize) -> (r: Vec<u8>)
    ensures
        r@ == le_digits(n as nat, width as nat),
{
    let mut r: Vec<u8> = Vec::new();
    let mut rest: u64 = n;
    let mut left: usize = width;
    assert(r@ + le_digits(n as nat, width as nat) =~= le_digits(n as nat, width as nat));
    while left > 0
        invariant
            left <= width,
            r@ + le_digits(rest as nat, left as nat) == le_digits(n as nat, width as nat),
        decreases left,
    {
        let digit: u8 = (rest % 256) as u8;
        proof {
            assert(r@.push(digit) + le_digits((rest / 256) as nat, (left - 1) as nat) =~= r@
                + le_digits(rest as nat, left as nat));
        }
        r.push(digit);
        rest = rest / 256;
        left = left - 1;
    }
    assert(r@ + le_digits(rest as nat, 0) =~= r@);
    r
}

/// A value that is stored as a fixed number of bytes.
pub trait Pod: Sized {
    /// The number of bytes.
    spec fn width() -> nat;

    /// What bytes of that number stand for.
    spec fn decode(bytes: Seq<u8>) -> Result<Self, PodError>;

    /// The bytes that a value is stored as.
    spec fn encode(self) -> Seq<u8>;

    /// Whether a value is one of those that bytes can stand for.
    spec fn storable(self) -> bool;

    /// Reading what was stored gives the value back.
    proof fn decode_of_encode(self)
        ensures
            self.encode().len() == Self::width(),
            self.storable() ==> Self::decode(self.encode()) == Ok::<Self, PodError>(self),
    ;

    /// The number of bytes.
    fn size() -> (n: usize)
        ensures
            n == Self::width(),
    ;

    /// The value that `bytes` stand for.
    fn try_from_bytes(bytes: &[u8]) -> (r: Result<Self, PodError>)
        requires
            bytes@.len() == Self::width(),
        ensures
            r == Self::decode(bytes@),
    ;

    /// The bytes that the value is stored as.
    fn to_bytes(&self) -> (r: Vec<u8>)
        ensures
            r@ == self.encode(),
    ;
}

impl Pod for u8 {
    open spec fn width() -> nat {
        1
    }

    open spec fn decode(bytes: Seq<u8>) -> Result<Self, PodError> {
        Ok(bytes[0])
    }

    open spec fn encode(self) -> Seq<u8> {
        seq![self]
    }

    open spec fn storable(self) -> bool {
        true
    }

    proof fn decode_of_encode(self) {
    }

    fn size() -> (n: usize) {
        1
    }

    fn try_from_bytes(bytes: &[u8]) -> (r: Result<Self, PodError>) {
        Ok(pod_read_u8(bytes))
    }

    fn to_bytes(&self) -> (r: Vec<u8>) {
        let mut r: Vec<u8> = Vec::new();
        r.push(*self);
        assert(r@ =~= seq![*self]);
        r
    }
}

impl Pod for u16 {
    open spec fn width() -> nat {
        2
    }

    open spec fn decode(bytes: Seq<u8>) -> Result<Self, PodError> {
        Ok(le(bytes) as u16)
    }

    open spec fn encode(self) -> Seq<u8> {
        le_digits(self as nat, 2)
    }

    open spec fn storable(self) -> bool {
        true
    }

    proof fn decode_of_encode(self) {
        lemma_powers();
        le_of_digits(self as nat, 2);
    }

    fn size() -> (n: usize) {
        2
    }

    fn try_from_bytes(bytes: &[u8]) -> (r: Result<Self, PodError>) {
        Ok(pod_read_u16(bytes))
    }

    fn to_bytes(&self) -> (r: Vec<u8>) {
        spell(*self as u64, 2)
    }
}

impl Pod for u32 {
    open spec fn width() -> nat {
        4
    }

    open spec fn decode(bytes: Seq<u8>) -> Result<Self, PodError> {
        Ok(le(bytes) as u32)
    }

    open spec fn encode(self) -> Seq<u8> {
        le_digits(self as nat, 4)
    }

    open spec fn storable(self) -> bool {
        true
    }

    proof fn decode_of_encode(self) {
        lemma_powers();
        le_of_digits(self as nat, 4);
    }

    fn size() -> (n: usize) {
        4
    }

    fn try_from_bytes(bytes: &[u8]) -> (r: Result<Self, PodError>) {
        Ok(pod_read_u32(bytes))
    }

    fn to_bytes(&self) -> (r: Vec<u8>) {
        spell(*self as u64, 4)
    }
}

impl Pod for u64 {
    open spec fn width() -> nat {
        8
    }

    open spec fn decode(bytes: Seq<u8>) -> Result<Self, PodError> {
        Ok(le(bytes) as u64)
    }

    open spec fn encode(self) -> Seq<u8> {
        le_digits(self as nat, 8)
    }

    open spec fn storable(self) -> bool {
        true
    }

    proof fn decode_of_encode(self) {
        lemma_powers();
        le_of_digits(self as nat, 8);
    }

    fn size() -> (n: usize) {
        8
    }

    fn try_from_bytes(bytes: &[u8]) -> (r: Result<Self, PodError>) {
        Ok(pod_read_u64(bytes))
    }

    fn to_bytes(&self) -> (r: Vec<u8>) {
        spell(*self as u64, 8)
    }
}

impl Pod for i8 {
    open spec fn width() -> nat {
        1
    }

    open spec fn decode(bytes: Seq<u8>) -> Result<Self, PodError> {
        Ok(twos(bytes[0] as nat, 0x80) as i8)
    }

    open spec fn encode(self) -> Seq<u8> {
        le_digits(untwos(self as int, 0x80), 1)
    }

    open spec fn storable(self) -> bool {
        true
    }

    proof fn decode_of_encode(self) {
        lemma_powers();
        le_of_digits(untwos(self as int, 0x80), 1);
        reveal_with_fuel(le, 2);
    }

    fn size() -> (n: usize) {
        1
    }

    fn try_from_bytes(bytes: &[u8]) -> (r: Result<Self, PodError>) {
        let n: u8 = pod_read_u8(bytes);
        assert(n < 0x80 ==> n as i8 == n) by (bit_vector);
        assert(n >= 0x80 ==> n as i8 == n - 2 * 0x80) by (bit_vector);
        Ok(n as i8)
    }

    fn to_bytes(&self) -> (r: Vec<u8>) {
        let v: i8 = *self;
        let n: u8 = v as u8;
        assert(v >= 0 ==> v as u8 == v) by (bit_vector);
        assert(v < 0 ==> v as u8 == v + 2 * 0x80) by (bit_vector);
        spell(n as u64, 1)
    }
}

impl Pod for i16 {
    open spec fn width() -> nat {
        2
    }

    open spec fn decode(bytes: Seq<u8>) -> Result<Self, PodError> {
        Ok(twos(le(bytes), 0x8000) as i16)
    }

    open spec fn encode(self) -> Seq<u8> {
        le_digits(untwos(self as int, 0x8000), 2)
    }

    open spec fn storable(self) -> bool {
        true
    }

    proof fn decode_of_encode(self) {
        lemma_powers();
        le_of_digits(untwos(self as int, 0x8000), 2);
    }

    fn size() -> (n: usize) {
        2
    }

    fn try_from_bytes(bytes: &[u8]) -> (r: Result<Self, PodError>) {
        let n: u16 = pod_read_u16(bytes);
        assert(n < 0x8000 ==> n as i16 == n) by (bit_vector);
        assert(n >= 0x8000 ==> n as i16 == n - 2 * 0x8000) by (bit_vector);
        Ok(n as i16)
    }

    fn to_bytes(&self) -> (r: Vec<u8>) {
        let v: i16 = *self;
        let n: u16 = v as u16;
        assert(v >= 0 ==> v as u16 == v) by (bit_vector);
        assert(v < 0 ==> v as u16 == v + 2 * 0x8000) by (bit_vector);
        spell(n as u64, 2)
    }
}

impl Pod for i32 {
    open spec fn width() -> nat {
        4
    }

    open spec fn decode(bytes: Seq<u8>) -> Result<Self, PodError> {
        Ok(twos(le(bytes), 0x8000_0000) as i32)
    }

    open spec fn encode(self) -> Seq<u8> {
        le_digits(untwos(self as int, 0x8000_0000), 4)
    }

    open spec fn storable(self) -> bool {
        true
    }

    proof fn decode_of_encode(self) {
        lemma_powers();
        le_of_digits(untwos(self as int, 0x8000_0000), 4);
    }

    fn size() -> (n: usize) {
        4
    }

    fn try_from_bytes(bytes: &[u8]) -> (r: Result<Self, PodError>) {
        let n: u32 = pod_read_u32(bytes);
        assert(n < 0x8000_0000 ==> n as i32 == n) by (bit_vector);
        assert(n >= 0x8000_0000 ==> n as i32 == n - 2 * 0x8000_0000) by (bit_vector);
        Ok(n as i32)
    }

    fn to_bytes(&self) -> (r: Vec<u8>) {
        let v: i32 = *self;
        let n: u32 = v as u32;
        assert(v >= 0 ==> v as u32 == v) by (bit_vector);
        assert(v < 0 ==> v as u32 == v + 2 * 0x8000_0000) by (bit_vector);
        spell(n as u64, 4)
    }
}

impl Pod for i64 {
    open spec fn width() -> nat {
        8
    }

    open spec fn decode(bytes: Seq<u8>) -> Result<Self, PodError> {
        Ok(twos(le(bytes), 0x8000_0000_0000_0000) as i64)
    }

    open spec fn encode(self) -> Seq<u8> {
        le_digits(untwos(self as int, 0x8000_0000_0000_0000), 8)
    }

    open spec fn storable(self) -> bool {
        true
    }

    proof fn decode_of_encode(self) {
        lemma_powers();
        le_of_digits(untwos(self as int, 0x8000_0000_0000_0000), 8);
    }

    fn size() -> (n: usize) {
        8
    }

    fn try_from_bytes(bytes: &[u8]) -> (r: Result<Self, PodError>) {
        let n: u64 = pod_read_u64(bytes);
        assert(n < 0x8000_0000_0000_0000 ==> n as i64 == n) by (bit_vector);
        assert(n >= 0x8000_0000_0000_0000 ==> n as i64 == n - 2 * 0x8000_0000_0000_0000)
            by (bit_vector);
        Ok(n as i64)
    }

    fn to_bytes(&self) -> (r: Vec<u8>) {
        let v: i64 = *self;
        let n: u64 = v as u64;
        assert(v >= 0 ==> v as u64 == v) by (bit_vector);
        assert(v < 0 ==> v as u64 == v + 2 * 0x8000_0000_0000_0000) by (bit_vector);
        spell(n as u64, 8)
    }
}

impl Pod for bool {
    open spec fn width() -> nat {
        1
    }

    open spec fn decode(bytes: Seq<u8>) -> Result<Self, PodError> {
        Ok(bytes[0] != 0)
    }

    open spec fn encode(self) -> Seq<u8> {
        seq![if self { 1u8 } else { 0u8 }]
    }

    open spec fn storable(self) -> bool {
        true
    }

    proof fn decode_of_encode(self) {
    }

    fn size() -> (n: usize) {
        1
    }

    fn try_from_bytes(bytes: &[u8]) -> (r: Result<Self, PodError>) {
        Ok(pod_read_u8(bytes) != 0)
    }

    fn to_bytes(&self) -> (r: Vec<u8>) {
        let b: u8 = if *self { 1 } else { 0 };
        b.to_bytes()
    }
}

/// The number of bytes of a `usize` on this machine.
pub open spec fn usize_width() -> nat {
    if usize::BITS == 64 {
        8
    } else {
        4
    }
}

impl Pod for usize {
    open spec fn width() -> nat {
        usize_width()
    }

    open spec fn decode(bytes: Seq<u8>) -> Result<Self, PodError> {
        Ok(le(bytes) as usize)
    }

    open spec fn encode(self) -> Seq<u8> {
        le_digits(self as nat, usize_width())
    }

    open spec fn storable(self) -> bool {
        true
    }

    proof fn decode_of_encode(self) {
        lemma_powers();
        le_of_digits(self as nat, usize_width());
    }

    fn size() -> (n: usize) {
        if usize::BITS == 64 {
            8
        } else {
            4
        }
    }

    fn try_from_bytes(bytes: &[u8]) -> (r: Result<Self, PodError>) {
        if usize::BITS == 64 {
            Ok(pod_read_u64(bytes) as usize)
        } else {
            Ok(pod_read_u32(bytes) as usize)
        }
    }

    fn to_bytes(&self) -> (r: Vec<u8>) {
        if usize::BITS == 64 {
            spell(*self as u64, 8)
        } else {
            spell(*self as u64, 4)
        }
    }
}

/// The bits of a single-precision number.
#[derive(Clone, Copy, PartialEq, Eq, Debug, Structural)]
pub struct Float32 {
    pub bits: u32,
}

/// The bits of a double-precision number.
#[derive(Clone, Copy, PartialEq, Eq, Debug, Structural)]
pub struct Float64 {
    pub bits: u64,
}

impl Pod for Float32 {
    open spec fn width() -> nat {
        4
    }

    open spec fn decode(bytes: Seq<u8>) -> Result<Self, PodError> {
        Ok(Float32 { bits: le(bytes) as u32 })
    }

    open spec fn encode(self) -> Seq<u8> {
        le_digits(self.bits as nat, 4)
    }

    open spec fn storable(self) -> bool {
        true
    }

    proof fn decode_of_encode(self) {
        lemma_powers();
        le_of_digits(self.bits as nat, 4);
    }

    fn size() -> (n: usize) {
        4
    }

    fn try_from_bytes(bytes: &[u8]) -> (r: Result<Self, PodError>) {
        Ok(Float32 { bits: pod_read_u32(bytes) })
    }

    fn to_bytes(&self) -> (r: Vec<u8>) {
        spell(self.bits as u64, 4)
    }
}

impl Pod for Float64 {
    open spec fn width() -> nat {
        8
    }

    open spec fn decode(bytes: Seq<u8>) -> Result<Self, PodError> {
        Ok(Float64 { bits: le(bytes) as u64 })
    }

    open spec fn encode(self) -> Seq<u8> {
        le_digits(self.bits as nat, 8)
    }

    open spec fn storable(self) -> bool {
        true
    }

    proof fn decode_of_encode(self) {
        lemma_powers();
        le_of_digits(self.bits as nat, 8);
    }

    fn size() -> (n: usize) {
        8
    }

    fn try_from_bytes(bytes: &[u8]) -> (r: Result<Self, PodError>) {
        Ok(Float64 { bits: pod_read_u64(bytes) })
    }

    fn to_bytes(&self) -> (r: Vec<u8>) {
        spell(self.bits as u64, 8)
    }
}

/// A set of flags in 8 bits, of which those of `DECLARED` have a meaning.
#[derive(Clone, Copy, Debug)]
pub struct Flags8<const DECLARED: u8> {
    pub bits: u8,
}

impl<const DECLARED: u8> Pod for Flags8<DECLARED> {
    open spec fn width() -> nat {
        1
    }

    open spec fn decode(bytes: Seq<u8>) -> Result<Self, PodError> {
        let bits = bytes[0];
        if bits & !DECLARED == 0 {
            Ok(Flags8 { bits })
        } else {
            Err(PodError::InvalidBits { bits: bits as u64 })
        }
    }

    open spec fn encode(self) -> Seq<u8> {
        self.bits.encode()
    }

    open spec fn storable(self) -> bool {
        self.bits & !DECLARED == 0
    }

    proof fn decode_of_encode(self) {
        self.bits.decode_of_encode();
    }

    fn size() -> (n: usize) {
        1
    }

    fn try_from_bytes(bytes: &[u8]) -> (r: Result<Self, PodError>) {
        let bits: u8 = pod_read_u8(bytes);
        if bits & !DECLARED == 0 {
            Ok(Flags8 { bits })
        } else {
            Err(PodError::InvalidBits { bits: bits as u64 })
        }
    }

    fn to_bytes(&self) -> (r: Vec<u8>) {
        self.bits.to_bytes()
    }
}

/// A set of flags in 32 bits, of which those of `DECLARED` have a meaning.
#[derive(Clone, Copy, Debug)]
pub struct Flags32<const DECLARED: u32> {
    pub bits: u32,
}

impl<const DECLARED: u32> Pod for Flags32<DECLARED> {
    open spec fn width() -> nat {
        4
    }

    open spec fn decode(bytes: Seq<u8>) -> Result<Self, PodError> {
        let bits = le(bytes) as u32;
        if bits & !DECLARED == 0 {
            Ok(Flags32 { bits })
        } else {
            Err(PodError::InvalidBits { bits: bits as u64 })
        }
    }

    open spec fn encode(self) -> Seq<u8> {
        self.bits.encode()
    }

    open spec fn storable(self) -> bool {
        self.bits & !DECLARED == 0
    }

    proof fn decode_of_encode(self) {
        self.bits.decode_of_encode();
    }

    fn size() -> (n: usize) {
        4
    }

    fn try_from_bytes(bytes: &[u8]) -> (r: Result<Self, PodError>) {
        let bits: u32 = pod_read_u32(bytes);
        if bits & !DECLARED == 0 {
            Ok(Flags32 { bits })
        } else {
            Err(PodError::InvalidBits { bits: bits as u64 })
        }
    }

    fn to_bytes(&self) -> (r: Vec<u8>) {
        self.bits.to_bytes()
    }
}

/// A set of flags in 64 bits, of which those of `DECLARED` have a meaning.
#[derive(Clone, Copy, Debug)]
pub struct Flags64<const DECLARED: u64> {
    pub bits: u64,
}

impl<const DECLARED: u64> Pod for Flags64<DECLARED> {
    open spec fn width() -> nat {
        8
    }

    open spec fn decode(bytes: Seq<u8>) -> Result<Self, PodError> {
        let bits = le(bytes) as u64;
        if bits & !DECLARED == 0 {
            Ok(Flags64 { bits })
        } else {
            Err(PodError::InvalidBits { bits: bits as u64 })
        }
    }

    open spec fn encode(self) -> Seq<u8> {
        self.bits.encode()
    }

    open spec fn storable(self) -> bool {
        self.bits & !DECLARED == 0
    }

    proof fn decode_of_encode(self) {
        self.bits.decode_of_encode();
    }

    fn size() -> (n: usize) {
        8
    }

    fn try_from_bytes(bytes: &[u8]) -> (r: Result<Self, PodError>) {
        let bits: u64 = pod_read_u64(bytes);
        if bits & !DECLARED == 0 {
            Ok(Flags64 { bits })
        } else {
            Err(PodError::InvalidBits { bits: bits as u64 })
        }
    }

    fn to_bytes(&self) -> (r: Vec<u8>) {
        self.bits.to_bytes()
    }
}

/// A choice out of `COUNT`, which are numbered from 0 on.
#[derive(Clone, Copy, Debug)]
pub struct Choice<const COUNT: u8> {
    pub discriminant: u8,
}

impl<const COUNT: u8> Pod for Choice<COUNT> {
    open spec fn width() -> nat {
        1
    }

    open spec fn decode(bytes: Seq<u8>) -> Result<Self, PodError> {
        if bytes[0] < COUNT {
            Ok(Choice { discriminant: bytes[0] })
        } else {
            Err(PodError::InvalidDiscriminant { discriminant: bytes[0] })
        }
    }

    open spec fn encode(self) -> Seq<u8> {
        self.discriminant.encode()
    }

    open spec fn storable(self) -> bool {
        self.discriminant < COUNT
    }

    proof fn decode_of_encode(self) {
    }

    fn size() -> (n: usize) {
        1
    }

    fn try_from_bytes(bytes: &[u8]) -> (r: Result<Self, PodError>) {
        let discriminant: u8 = pod_read_u8(bytes);
        if discriminant < COUNT {
            Ok(Choice { discriminant })
        } else {
            Err(PodError::InvalidDiscriminant { discriminant })
        }
    }

    fn to_bytes(&self) -> (r: Vec<u8>) {
        self.discriminant.to_bytes()
    }
}

/// The sum of bytes, of which each counts 256 times as much as the one before it.
pub open spec fn spelled(bytes: Seq<u8>) -> int
    decreases bytes.len(),
{
    if bytes.len() == 0 {
        0
    } else {
        spelled(bytes.drop_last()) + bytes.last() * byte_power((bytes.len() - 1) as nat)
    }
}

proof fn lemma_spelled(bytes: Seq<u8>)
    ensures
        spelled(bytes) == le(bytes),
        0 <= spelled(bytes) < byte_power(bytes.len()),
    decreases bytes.len(),
{
    digits_of_le(bytes);
    if bytes.len() > 0 {
        lemma_spelled(bytes.drop_last());
        lemma_le_push(bytes.drop_last(), bytes.last());
        assert(bytes.drop_last().push(bytes.last()) =~= bytes);
    }
}

proof fn lemma_le_push(s: Seq<u8>, b: u8)
    ensures
        le(s.push(b)) == le(s) + b * byte_power(s.len()),
    decreases s.len(),
{
    let all = s.push(b);
    if s.len() == 0 {
        assert(all.skip(1) =~= Seq::<u8>::empty());
        assert(le(all.skip(1)) == 0);
        assert(b * byte_power(0) == b) by (nonlinear_arith)
            requires
                byte_power(0) == 1,
        ;
    } else {
        assert(all.skip(1) =~= s.skip(1).push(b));
        lemma_le_push(s.skip(1), b);
        let p = byte_power((s.len() - 1) as nat);
        assert(256 * (b * p) == b * (256 * p)) by (nonlinear_arith);
    }
}

/// Numbers are stored with their least significant byte first, negative ones in two's complement,
/// floats as their bits, and truth values as a byte that is not zero where they are true.
pub proof fn numbers_are_spelled_in_bytes(bytes: Seq<u8>)
    ensures
        bytes.len() == 1 ==> (u8::decode(bytes) matches Ok(n) && n == spelled(bytes)),
        bytes.len() == 2 ==> (u16::decode(bytes) matches Ok(n) && n == spelled(bytes)),
        bytes.len() == 4 ==> (u32::decode(bytes) matches Ok(n) && n == spelled(bytes)),
        bytes.len() == 8 ==> (u64::decode(bytes) matches Ok(n) && n == spelled(bytes)),
        bytes.len() == usize_width() ==> (usize::decode(bytes) matches Ok(n) && n == spelled(bytes)),
        bytes.len() == 1 ==> (i8::decode(bytes) matches Ok(n) && (n == spelled(bytes) || n < 0 && n
            == spelled(bytes) - 0x100)),
        bytes.len() == 2 ==> (i16::decode(bytes) matches Ok(n) && (n == spelled(bytes) || n < 0 && n
            == spelled(bytes) - 0x1_0000)),
        bytes.len() == 4 ==> (i32::decode(bytes) matches Ok(n) && (n == spelled(bytes) || n < 0 && n
            == spelled(bytes) - 0x1_0000_0000)),
        bytes.len() == 8 ==> (i64::decode(bytes) matches Ok(n) && (n == spelled(bytes) || n < 0 && n
            == spelled(bytes) - 0x1_0000_0000_0000_0000)),
        bytes.len() == 4 ==> (Float32::decode(bytes) matches Ok(x) && x.bits == spelled(bytes)),
        bytes.len() == 8 ==> (Float64::decode(bytes) matches Ok(x) && x.bits == spelled(bytes)),
        bytes.len() == 1 ==> (bool::decode(bytes) matches Ok(b) && b == (spelled(bytes) != 0)),
        u8::width() == 1,
        u16::width() == 2,
        u32::width() == 4,
        u64::width() == 8,
        i8::width() == 1,
        i16::width() == 2,
        i32::width() == 4,
        i64::width() == 8,
        Float32::width() == 4,
        Float64::width() == 8,
        bool::width() == 1,
{
    lemma_powers();
    lemma_spelled(bytes);
    reveal_with_fuel(le, 2);
}

/// Flags can be read just where all of their bits are declared, and choices just where they are
/// among those that there are; they are what is stored then.
pub proof fn only_declared_values_are_read<
    const BYTE: u8,
    const WORD: u32,
    const LONG: u64,
    const COUNT: u8,
>(bytes: Seq<u8>)
    ensures
        bytes.len() == 1 ==> match Flags8::<BYTE>::decode(bytes) {
            Ok(f) => f.bits == spelled(bytes) && f.bits & !BYTE == 0,
            Err(e) => bytes[0] & !BYTE != 0 && e == (PodError::InvalidBits {
                bits: bytes[0] as u64,
            }),
        },
        bytes.len() == 4 ==> match Flags32::<WORD>::decode(bytes) {
            Ok(f) => f.bits == spelled(bytes) && f.bits & !WORD == 0,
            Err(e) => (spelled(bytes) as u32) & !WORD != 0 && e == (PodError::InvalidBits {
                bits: spelled(bytes) as u64,
            }),
        },
        bytes.len() == 8 ==> match Flags64::<LONG>::decode(bytes) {
            Ok(f) => f.bits == spelled(bytes) && f.bits & !LONG == 0,
            Err(e) => (spelled(bytes) as u64) & !LONG != 0 && e == (PodError::InvalidBits {
                bits: spelled(bytes) as u64,
            }),
        },
        bytes.len() == 1 ==> match Choice::<COUNT>::decode(bytes) {
            Ok(c) => c.discriminant == spelled(bytes) && c.discriminant < COUNT,
            Err(e) => bytes[0] >= COUNT && e == (PodError::InvalidDiscriminant {
                discriminant: bytes[0],
            }),
        },
{
    lemma_powers();
    lemma_spelled(bytes);
    reveal_with_fuel(le, 2);
}

} // verus!
