use bitstream::BitError;
use bitstream::BitWriter;

#[test]
fn bit_count_splits_into_bytes_and_pending() {
    let widths = [1u8, 3, 7, 8, 13, 64, 5];
    let mut w = BitWriter::new();
    let mut expected: u64 = 0;
    for wd in widths {
        w.write_u64(0xDEADBEEF, wd).expect("failed to write");
        expected += wd as u64;
        assert_eq!(w.bit_count(), expected);
        let pending = w.bit_count() - 8 * (w.data().len() as u64);
        assert!(pending < 8);
    }
}

#[test]
fn close_is_idempotent() {
    let mut once = BitWriter::new();
    once.write_u8(0b101, 3).expect("failed to write");
    once.close().expect("failed to close");

    let mut twice = BitWriter::new();
    twice.write_u8(0b101, 3).expect("failed to write");
    twice.close().expect("failed to close");
    twice.close().expect("failed to close again");

    assert_eq!(*once.data(), *twice.data());
    assert_eq!(once.bit_count(), twice.bit_count());
}

#[test]
fn masking_matches_premasked_value() {
    let mut high_bits = BitWriter::new();
    high_bits.write_u32(0xFFFF_FABC, 12).expect("failed to write");
    high_bits.close().expect("failed to close");

    let mut premasked = BitWriter::new();
    premasked.write_u32(0xABC, 12).expect("failed to write");
    premasked.close().expect("failed to close");

    assert_eq!(*high_bits.data(), *premasked.data());
    assert_eq!(high_bits.bit_count(), premasked.bit_count());
}

#[test]
fn align_pads_to_boundary() {
    let mut w = BitWriter::new();
    w.write_u8(1, 3).expect("failed to write");
    w.align(2).expect("failed to align");
    assert_eq!(w.bit_count() % 16, 0);
    assert_eq!(w.bit_count(), 16);

    // Aligning again is a no-op on the data and the count.
    let before = w.data().clone();
    let count = w.bit_count();
    w.align(2).expect("failed to re-align");
    assert_eq!(*w.data(), before);
    assert_eq!(w.bit_count(), count);
}

#[test]
fn align_to_zero_bytes_is_invalid() {
    let mut w = BitWriter::new();
    w.write_u8(5, 4).expect("failed to write");
    let count = w.bit_count();
    assert_eq!(w.align(0), Err(BitError::InvalidArgument));
    assert_eq!(w.bit_count(), count);
}

#[test]
fn bulk_bytes_equal_per_byte_writes() {
    let bytes = [0x12u8, 0xAB, 0xFF, 0x00];

    // Aligned starting state.
    let mut bulk = BitWriter::new();
    bulk.write(&bytes.to_vec()).expect("failed to write bulk");
    let mut single = BitWriter::new();
    for b in bytes {
        single.write_u8(b, 8).expect("failed to write byte");
    }
    assert_eq!(*bulk.data(), *single.data());
    assert_eq!(bulk.bit_count(), single.bit_count());

    // Unaligned starting state.
    let mut bulk = BitWriter::new();
    bulk.write_u8(0b101, 3).expect("failed to write lead");
    bulk.write(&bytes.to_vec()).expect("failed to write bulk");
    bulk.close().expect("failed to close");
    let mut single = BitWriter::new();
    single.write_u8(0b101, 3).expect("failed to write lead");
    for b in bytes {
        single.write_u8(b, 8).expect("failed to write byte");
    }
    single.close().expect("failed to close");
    assert_eq!(*bulk.data(), *single.data());
    assert_eq!(bulk.bit_count(), single.bit_count());
}

#[test]
fn skip_equals_single_zero_bit_writes() {
    let mut skipper = BitWriter::new();
    skipper.write_bool(true).expect("failed to write");
    skipper.skip(130).expect("failed to skip");

    let mut stepper = BitWriter::new();
    stepper.write_bool(true).expect("failed to write");
    for _ in 0..130 {
        stepper.write_u8(0, 1).expect("failed to write zero bit");
    }

    assert_eq!(skipper.bit_count(), stepper.bit_count());
    skipper.close().expect("failed to close");
    stepper.close().expect("failed to close");
    assert_eq!(*skipper.data(), *stepper.data());

    // Skipping nothing changes nothing.
    let count = skipper.bit_count();
    skipper.skip(0).expect("failed to skip zero bits");
    assert_eq!(skipper.bit_count(), count);
}

#[test]
fn width_above_maximum_is_rejected() {
    let mut w = BitWriter::new();
    w.write_u8(3, 2).expect("failed to write");
    let count = w.bit_count();
    assert_eq!(w.write_u8(0xFF, 9), Err(BitError::UnsupportedWidth));
    assert_eq!(w.bit_count(), count);
    assert_eq!(w.write_u16(1, 17), Err(BitError::UnsupportedWidth));
    assert_eq!(w.write_u32(1, 33), Err(BitError::UnsupportedWidth));
    assert_eq!(w.write_u64(1, 65), Err(BitError::UnsupportedWidth));
    assert_eq!(w.write_i8(1, 9), Err(BitError::UnsupportedWidth));
    assert_eq!(w.write_i16(1, 17), Err(BitError::UnsupportedWidth));
    assert_eq!(w.write_i32(1, 33), Err(BitError::UnsupportedWidth));
    assert_eq!(w.write_i64(1, 65), Err(BitError::UnsupportedWidth));
    assert_eq!(w.write_unsigned_bits(1, 70, 64), Err(BitError::UnsupportedWidth));
    assert_eq!(w.write_signed_bits(-1, 70, 64), Err(BitError::UnsupportedWidth));
    assert_eq!(w.bit_count(), count);
}

#[test]
fn zero_width_writes_nothing() {
    let mut w = BitWriter::new();
    w.write_u8(0xFF, 0).expect("failed to write zero width");
    w.write_unsigned_bits(0xFF, 0, 64).expect("failed to write zero width");
    w.write_signed_bits(-5, 0, 64).expect("failed to write zero width");
    assert_eq!(w.bit_count(), 0);
    assert_eq!(w.data().len(), 0);
}

#[test]
fn bools_pack_msb_first() {
    let mut w = BitWriter::new();
    for b in [true, false, true, false, true, false, true, true] {
        w.write_bool(b).expect("failed to write bool");
    }
    assert_eq!(w.bit_count(), 8);
    assert_eq!(*w.data(), vec![0b10101011]);
}

#[test]
fn close_pads_partial_byte_with_zeros() {
    let mut w = BitWriter::new();
    w.write_u8(0b1, 1).expect("failed to write");
    assert_eq!(w.data().len(), 0);
    w.close().expect("failed to close");
    assert_eq!(*w.data(), vec![0x80]);
    assert_eq!(w.bit_count(), 8);
}

#[test]
fn signed_values_use_twos_complement() {
    let mut w = BitWriter::new();
    w.write_i8(-1, 8).expect("failed to write i8");
    w.write_i16(-2, 16).expect("failed to write i16");
    w.close().expect("failed to close");
    assert_eq!(*w.data(), vec![0xFF, 0xFF, 0xFE]);
}

#[test]
fn sign_fold_forces_top_bit() {
    // A value out of range for the width still gets the sign bit forced
    // on: -9 at width 4 keeps its low bits 0b0111 and bit 3 is set.
    let mut w = BitWriter::new();
    w.write_i8(-9, 4).expect("failed to write");
    w.close().expect("failed to close");
    assert_eq!(*w.data(), vec![0xF0]);
}

#[test]
fn signed_width_64_uses_native_pattern() {
    let mut w = BitWriter::new();
    w.write_i64(-1, 64).expect("failed to write i64");
    w.close().expect("failed to close");
    assert_eq!(*w.data(), vec![0xFF; 8]);
    assert_eq!(w.bit_count(), 64);
}

#[test]
fn values_cross_byte_boundaries_msb_first() {
    let mut w = BitWriter::new();
    w.write_u16(0b101_1100_1110, 11).expect("failed to write u16");
    w.write_u8(0b01, 2).expect("failed to write u8");
    w.close().expect("failed to close");
    // 10111001 110 ++ 01 ++ 000 of padding
    assert_eq!(*w.data(), vec![0xB9, 0xC8]);
    assert_eq!(w.bit_count(), 16);
}

#[test]
fn empty_byte_write_changes_nothing() {
    let mut w = BitWriter::new();
    w.write_u8(1, 1).expect("failed to write");
    let count = w.bit_count();
    w.write(&Vec::new()).expect("failed to write empty");
    assert_eq!(w.bit_count(), count);
    assert_eq!(w.data().len(), 0);
}
