use jmap_dumper::pod::{Choice, Flags32, Flags64, Flags8, Float32, Float64, Pod, PodError};

#[test]
fn numbers_are_read_least_significant_byte_first() {
    assert_eq!(u8::try_from_bytes(&[0x7f]), Ok(0x7f));
    assert_eq!(u16::try_from_bytes(&[0x34, 0x12]), Ok(0x1234));
    assert_eq!(u32::try_from_bytes(&[0x78, 0x56, 0x34, 0x12]), Ok(0x12345678));
    assert_eq!(
        u64::try_from_bytes(&[0xef, 0xcd, 0xab, 0x89, 0x67, 0x45, 0x23, 0x01]),
        Ok(0x0123456789abcdef)
    );
}

#[test]
fn signed_numbers_are_in_twos_complement() {
    assert_eq!(i8::try_from_bytes(&[0xff]), Ok(-1));
    assert_eq!(i16::try_from_bytes(&[0x00, 0x80]), Ok(i16::MIN));
    assert_eq!(i32::try_from_bytes(&[0xfe, 0xff, 0xff, 0xff]), Ok(-2));
    assert_eq!(i64::try_from_bytes(&[0, 0, 0, 0, 0, 0, 0, 0x80]), Ok(i64::MIN));
}

#[test]
fn any_byte_but_zero_is_true() {
    assert_eq!(bool::try_from_bytes(&[0]), Ok(false));
    assert_eq!(bool::try_from_bytes(&[1]), Ok(true));
    assert_eq!(bool::try_from_bytes(&[0x80]), Ok(true));
}

#[test]
fn floats_keep_their_bits() {
    let bytes = 1.5f32.to_le_bytes();
    let single = Float32::try_from_bytes(&bytes).unwrap();
    assert_eq!(f32::from_bits(single.bits), 1.5);
    let bytes = (-0.25f64).to_le_bytes();
    let double = Float64::try_from_bytes(&bytes).unwrap();
    assert_eq!(f64::from_bits(double.bits), -0.25);
}

#[test]
fn reading_what_was_stored_gives_it_back() {
    assert_eq!(0xabcdu16.to_bytes(), vec![0xcd, 0xab]);
    assert_eq!(u16::try_from_bytes(&0xabcdu16.to_bytes()), Ok(0xabcd));
    assert_eq!(i32::try_from_bytes(&(-77i32).to_bytes()), Ok(-77));
    assert_eq!(i64::try_from_bytes(&i64::MIN.to_bytes()), Ok(i64::MIN));
    assert_eq!(usize::try_from_bytes(&usize::MAX.to_bytes()), Ok(usize::MAX));
    assert_eq!(true.to_bytes(), vec![1]);
    let single = Float32 { bits: 0x7fc0_0001 };
    assert_eq!(Float32::try_from_bytes(&single.to_bytes()), Ok(single));
}

#[test]
fn sizes_are_those_of_the_types() {
    assert_eq!(u8::size(), 1);
    assert_eq!(i16::size(), 2);
    assert_eq!(u32::size(), 4);
    assert_eq!(i64::size(), 8);
    assert_eq!(bool::size(), 1);
    assert_eq!(usize::size(), std::mem::size_of::<usize>());
    assert_eq!(Float64::size(), 8);
    assert_eq!(Flags32::<7>::size(), 4);
}

#[test]
fn undeclared_flag_bits_are_refused() {
    assert_eq!(Flags8::<0x03>::try_from_bytes(&[0x02]).unwrap().bits, 2);
    assert_eq!(
        Flags8::<0x03>::try_from_bytes(&[0x04]).err(),
        Some(PodError::InvalidBits { bits: 4 })
    );
    assert_eq!(Flags32::<0xff00>::try_from_bytes(&[0, 0x12, 0, 0]).unwrap().bits, 0x1200);
    assert_eq!(
        Flags32::<0xff00>::try_from_bytes(&[1, 0x12, 0, 0]).err(),
        Some(PodError::InvalidBits { bits: 0x1201 })
    );
    let flags = Flags64::<0x8000_0000_0000_0001>::try_from_bytes(&[1, 0, 0, 0, 0, 0, 0, 0x80]);
    assert_eq!(flags.unwrap().to_bytes(), vec![1, 0, 0, 0, 0, 0, 0, 0x80]);
}

#[test]
fn unknown_discriminants_are_refused() {
    assert_eq!(Choice::<3>::try_from_bytes(&[2]).unwrap().discriminant, 2);
    assert_eq!(
        Choice::<3>::try_from_bytes(&[3]).err(),
        Some(PodError::InvalidDiscriminant { discriminant: 3 })
    );
}
