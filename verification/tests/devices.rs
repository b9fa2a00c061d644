use easy_io::narrow::{low_signed, low_unsigned, narrow_signed, Width};
use easy_io::scan::ByteClass;
use easy_io::{ByteSink, ByteSource, DeviceError, MemorySink, MemorySource};

#[test]
fn memory_source_fills_as_far_as_it_can() {
    let mut s = MemorySource::new(b"abcde".to_vec());
    let mut buf = [b'.'; 3];
    assert_eq!(s.read(&mut buf), Ok(3));
    assert_eq!(&buf, b"abc");
    assert_eq!(s.read(&mut buf), Ok(2));
    assert_eq!(&buf, b"dec");
    assert_eq!(s.read(&mut buf), Ok(0));
    assert_eq!(&buf, b"dec");
    assert_eq!(s.read(&mut buf), Ok(0));
}

#[test]
fn memory_source_keeps_to_its_chunk() {
    let mut s = MemorySource::with_chunk(b"abcde".to_vec(), 2);
    let mut buf = [b'.'; 4];
    assert_eq!(s.read(&mut buf), Ok(2));
    assert_eq!(&buf, b"ab..");
    assert_eq!(s.read(&mut buf[..1]), Ok(1));
    assert_eq!(&buf, b"cb..");
    assert_eq!(s.read(&mut buf[..0]), Ok(0));
    assert_eq!(s.read(&mut buf), Ok(2));
    assert_eq!(&buf, b"de..");
    assert_eq!(s.read(&mut buf), Ok(0));
}

#[test]
fn memory_source_without_chunk_hands_out_single_bytes() {
    let mut s = MemorySource::with_chunk(b"ab".to_vec(), 0);
    let mut buf = [b'.'; 4];
    assert_eq!(s.read(&mut buf), Ok(1));
    assert_eq!(&buf, b"a...");
    assert_eq!(s.read(&mut buf), Ok(1));
    assert_eq!(&buf, b"b...");
    assert_eq!(s.read(&mut buf), Ok(0));
}

#[test]
fn memory_source_that_fails_leaves_the_buffer_alone() {
    let mut s = MemorySource::new(b"ab".to_vec()).failing();
    let mut buf = [b'.'; 4];
    assert_eq!(s.read(&mut buf), Ok(2));
    assert_eq!(&buf, b"ab..");
    assert_eq!(s.read(&mut buf), Err(DeviceError));
    assert_eq!(&buf, b"ab..");
    assert_eq!(s.read(&mut buf), Err(DeviceError));
    assert_eq!(s.read(&mut buf[..0]), Err(DeviceError));
}

#[test]
fn memory_sink_keeps_what_it_is_given() {
    let mut s = MemorySink::new();
    assert_eq!(s.write_count(), 0);
    assert_eq!(s.write_all(b"ab"), Ok(()));
    assert_eq!(s.write_all(b""), Ok(()));
    assert_eq!(s.write_all(b"c"), Ok(()));
    assert_eq!(s.bytes().as_slice(), b"abc");
    assert_eq!(s.write_count(), 3);
}

#[test]
fn byte_classes_are_the_ascii_ones() {
    for b in 0..=255u8 {
        assert_eq!(ByteClass::Digit.contains(b), b.is_ascii_digit());
        assert_eq!(ByteClass::Graphic.contains(b), b.is_ascii_graphic());
        assert_eq!(ByteClass::SignOrDigit.contains(b), b.is_ascii_digit() || b == b'-');
        assert_eq!(ByteClass::Newline.contains(b), b == b'\n');
    }
}

#[test]
fn low_bits_are_what_a_cast_keeps() {
    let values: Vec<u64> = vec![
        0,
        1,
        127,
        128,
        255,
        256,
        32767,
        32768,
        65535,
        65536,
        2147483647,
        2147483648,
        4294967295,
        4294967296,
        9223372036854775807,
        9223372036854775808,
        18446744073709551615,
        0x1234_5678_9abc_def0,
    ];
    for v in values {
        assert_eq!(low_unsigned(v, Width::Bits8), (v as u8) as u64);
        assert_eq!(low_unsigned(v, Width::Bits16), (v as u16) as u64);
        assert_eq!(low_unsigned(v, Width::Bits32), (v as u32) as u64);
        assert_eq!(low_unsigned(v, Width::Bits64), v);
        assert_eq!(low_signed(false, v, Width::Bits8), (v as i8) as i64);
        assert_eq!(low_signed(false, v, Width::Bits16), (v as i16) as i64);
        assert_eq!(low_signed(false, v, Width::Bits32), (v as i32) as i64);
        assert_eq!(low_signed(false, v, Width::Bits64), v as i64);
        assert_eq!(low_signed(true, v, Width::Bits8), (v.wrapping_neg() as i8) as i64);
        assert_eq!(low_signed(true, v, Width::Bits16), (v.wrapping_neg() as i16) as i64);
        assert_eq!(low_signed(true, v, Width::Bits32), (v.wrapping_neg() as i32) as i64);
        assert_eq!(low_signed(true, v, Width::Bits64), v.wrapping_neg() as i64);
        let x = v as i64;
        assert_eq!(narrow_signed(x, Width::Bits8), (x as i8) as i64);
        assert_eq!(narrow_signed(x, Width::Bits16), (x as i16) as i64);
        assert_eq!(narrow_signed(x, Width::Bits32), (x as i32) as i64);
        assert_eq!(narrow_signed(x, Width::Bits64), x);
    }
    for v in [0u64, 1, 4294967295, 4294967296, 18446744073709551615] {
        assert_eq!(low_unsigned(v, Width::Pointer), (v as usize) as u64);
        assert_eq!(low_signed(false, v, Width::Pointer), (v as isize) as i64);
        assert_eq!(low_signed(true, v, Width::Pointer), (v.wrapping_neg() as isize) as i64);
        assert_eq!(narrow_signed(v as i64, Width::Pointer), (v as i64 as isize) as i64);
    }
    assert_eq!(Width::Bits8.values(), 256);
    assert_eq!(Width::Bits16.values(), 65536);
    assert_eq!(Width::Bits32.values(), 4294967296);
    assert_eq!(Width::Bits64.values(), 18446744073709551616);
    assert_eq!(Width::Pointer.values(), usize::MAX as u128 + 1);
    assert_eq!(low_unsigned(300, Width::Bits8), 44);
    assert_eq!(low_signed(false, 128, Width::Bits8), -128);
    assert_eq!(low_signed(true, 129, Width::Bits8), 127);
    assert_eq!(narrow_signed(-2147483649, Width::Bits32), 2147483647);
}
