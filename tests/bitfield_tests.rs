use bitfield::{
    best_fit, binary_string, enum_specifier, plan, read_bits, specify_bits, write_bits, Bitfield,
    BitfieldError, Bits, BoolSpec, EnumSpec, FieldDecl, Layout, NativeWidth, Specifier,
};

fn decl(name: &str, bits: usize) -> FieldDecl {
    FieldDecl { name: name.to_string(), bits, asserted_bits: None }
}

fn layout_of(widths: &[usize]) -> Layout {
    let decls: Vec<FieldDecl> =
        widths.iter().enumerate().map(|(i, w)| decl(&format!("f{}", i), *w)).collect();
    plan(&decls).unwrap()
}

#[test]
fn best_fit_picks_narrowest_native_width() {
    assert_eq!(best_fit(0), Ok(NativeWidth::U8));
    assert_eq!(best_fit(1), Ok(NativeWidth::U8));
    assert_eq!(best_fit(8), Ok(NativeWidth::U8));
    assert_eq!(best_fit(9), Ok(NativeWidth::U16));
    assert_eq!(best_fit(16), Ok(NativeWidth::U16));
    assert_eq!(best_fit(17), Ok(NativeWidth::U32));
    assert_eq!(best_fit(33), Ok(NativeWidth::U64));
    assert_eq!(best_fit(64), Ok(NativeWidth::U64));
    assert_eq!(best_fit(65), Ok(NativeWidth::U128));
    assert_eq!(best_fit(128), Ok(NativeWidth::U128));
    assert_eq!(best_fit(129), Err(BitfieldError::UnsupportedWidth));
    assert_eq!(NativeWidth::U32.bits(), 32);
}

#[test]
fn best_fit_is_monotonic() {
    for w1 in 0..=128usize {
        for w2 in w1..=128usize {
            assert!(best_fit(w1).unwrap().bits() <= best_fit(w2).unwrap().bits());
        }
    }
}

#[test]
fn primitive_specifiers_cover_widths_up_to_64() {
    for w in 0..=64usize {
        let b = specify_bits(w).unwrap();
        assert_eq!(b.bits(), w);
        assert!(b.container().bits() >= w);
    }
    assert_eq!(specify_bits(24).unwrap().container(), NativeWidth::U32);
    assert_eq!(specify_bits(65), Err(BitfieldError::UnknownSpecifier));
    let b = specify_bits(12).unwrap();
    assert_eq!(b.from_target(4000), 4000);
    assert_eq!(b.from_bit_repr(4000), Ok(4000));
}

#[test]
fn bool_specifier_packs_into_one_bit() {
    let s = BoolSpec;
    assert_eq!(s.bits(), 1);
    assert_eq!(s.container(), NativeWidth::U8);
    assert_eq!(s.from_target(false), 0);
    assert_eq!(s.from_target(true), 1);
    assert_eq!(s.from_bit_repr(0), Ok(false));
    assert_eq!(s.from_bit_repr(1), Ok(true));
}

#[test]
fn enum_with_four_variants_takes_two_bits() {
    let e = enum_specifier(&vec![None, None, None, None]).unwrap();
    assert_eq!(e.bits(), 2);
    assert_eq!(e.container(), NativeWidth::U8);
    assert_eq!(e.discriminants, vec![0, 1, 2, 3]);
    for i in 0..4usize {
        assert_eq!(e.from_target(i), i as u128);
        assert_eq!(e.from_bit_repr(i as u128), Ok(i));
    }
}

#[test]
fn enum_with_three_variants_is_rejected() {
    assert_eq!(
        enum_specifier(&vec![None, None, None]),
        Err(BitfieldError::NonPowerOfTwoVariantCount)
    );
    assert_eq!(enum_specifier(&vec![]), Err(BitfieldError::NonPowerOfTwoVariantCount));
    assert_eq!(
        enum_specifier(&vec![None, None, None, None, None, None]),
        Err(BitfieldError::NonPowerOfTwoVariantCount)
    );
}

#[test]
fn enum_discriminant_too_wide_is_rejected() {
    assert_eq!(
        enum_specifier(&vec![Some(5), None, None, None]),
        Err(BitfieldError::DiscriminantOverflow)
    );
    assert_eq!(
        enum_specifier(&vec![None, None, Some(3), None]),
        Err(BitfieldError::DiscriminantOverflow)
    );
}

#[test]
fn enum_duplicate_discriminant_is_rejected() {
    assert_eq!(
        enum_specifier(&vec![Some(1), Some(1), Some(2), Some(3)]),
        Err(BitfieldError::DuplicateDiscriminant)
    );
}

#[test]
fn enum_explicit_and_implicit_discriminants() {
    let e = enum_specifier(&vec![Some(3), Some(2), Some(1), Some(0)]).unwrap();
    assert_eq!(e.discriminants, vec![3, 2, 1, 0]);
    assert_eq!(e.from_bit_repr(3), Ok(0));
    assert_eq!(e.from_target(1), 2);
    let mixed = enum_specifier(&vec![None, Some(2), None, Some(1)]).unwrap();
    assert_eq!(mixed.discriminants, vec![0, 2, 3, 1]);
    let one = enum_specifier(&vec![None]).unwrap();
    assert_eq!(one.bits(), 0);
    let eight = enum_specifier(&vec![None; 8]).unwrap();
    assert_eq!(eight.bits(), 3);
}

#[test]
fn unknown_discriminant_is_reported() {
    let partial = EnumSpec { bits: 2, discriminants: vec![0, 1] };
    assert_eq!(partial.from_bit_repr(3), Err(BitfieldError::InvalidDiscriminant));
}

#[test]
fn plan_packs_fields_in_order() {
    let l = layout_of(&[1, 3, 4, 24]);
    assert_eq!(l.total_bits, 32);
    let starts: Vec<usize> = l.fields.iter().map(|f| f.start).collect();
    let ends: Vec<usize> = l.fields.iter().map(|f| f.end).collect();
    let containers: Vec<usize> = l.fields.iter().map(|f| f.container_width).collect();
    assert_eq!(starts, vec![0, 1, 4, 8]);
    assert_eq!(ends, vec![1, 4, 8, 32]);
    assert_eq!(containers, vec![8, 8, 8, 32]);
    assert_eq!(l.fields[2].name, "f2");
    assert_eq!(Bitfield::new(l).as_bytes().len(), 4);
}

#[test]
fn plan_rejects_misaligned_total() {
    let decls = vec![decl("a", 1), decl("b", 3), decl("c", 4), decl("d", 3)];
    assert_eq!(plan(&decls), Err(BitfieldError::MisalignedLayout));
    assert_eq!(plan(&vec![]).unwrap().total_bits, 0);
}

#[test]
fn plan_rejects_asserted_width_mismatch() {
    let mut decls = vec![decl("a", 4), decl("b", 4)];
    decls[1].asserted_bits = Some(4);
    assert!(plan(&decls).is_ok());
    decls[0].asserted_bits = Some(5);
    assert_eq!(
        plan(&decls),
        Err(BitfieldError::WidthMismatch { field_name: "a".to_string(), expected: 5, actual: 4 })
    );
}

#[test]
fn plan_rejects_unsupported_width() {
    let decls = vec![decl("a", 8), decl("b", 136)];
    assert_eq!(plan(&decls), Err(BitfieldError::UnsupportedWidth));
}

#[test]
fn set_then_get_with_neighbour_untouched() {
    let mut s = Bitfield::new(layout_of(&[1, 3, 4, 24]));
    let b3 = specify_bits(3).unwrap();
    let b4 = specify_bits(4).unwrap();
    s.set(1, &b3, 5);
    assert_eq!(s.get(1, &b3), Ok(5));
    s.set(2, &b4, 0b1111);
    assert_eq!(s.get(1, &b3), Ok(5));
    assert_eq!(s.get(2, &b4), Ok(0b1111));
    assert_eq!(s.as_bytes(), &vec![0b0101_1111, 0, 0, 0]);
}

#[test]
fn round_trip_every_field() {
    let widths = [1usize, 3, 4, 24, 7, 9, 64, 0, 16];
    let mut s = Bitfield::new(layout_of(&widths));
    for (i, w) in widths.iter().enumerate() {
        let spec = specify_bits(*w).unwrap();
        let max: u64 = if *w == 64 { u64::MAX } else { (1u64 << *w) - 1 };
        for v in [0u64, 1 & max, max, max / 3] {
            s.set(i, &spec, v);
            assert_eq!(s.get(i, &spec), Ok(v));
        }
    }
}

#[test]
fn setting_a_wider_value_truncates() {
    let mut s = Bitfield::new(layout_of(&[3, 5]));
    let b3 = specify_bits(3).unwrap();
    s.set(0, &b3, 13);
    assert_eq!(s.get(0, &b3), Ok(5));
    s.set_raw(1, 0xffff_ffe3);
    assert_eq!(s.get_raw(1), 3);
    assert_eq!(s.get_raw(0), 5);
}

#[test]
fn setting_one_field_keeps_the_others() {
    let widths = [5usize, 11, 1, 7, 8];
    let mut s = Bitfield::new(layout_of(&widths));
    let values = [21u128, 1234, 1, 99, 200];
    for i in 0..widths.len() {
        s.set_raw(i, values[i]);
    }
    s.set_raw(1, 0);
    assert_eq!(s.get_raw(0), 21);
    assert_eq!(s.get_raw(1), 0);
    assert_eq!(s.get_raw(2), 1);
    assert_eq!(s.get_raw(3), 99);
    assert_eq!(s.get_raw(4), 200);
}

#[test]
fn bool_and_enum_fields() {
    let e = enum_specifier(&vec![Some(2), Some(0), Some(3), Some(1)]).unwrap();
    let mut s = Bitfield::new(layout_of(&[1, 2, 5]));
    s.set(0, &BoolSpec, true);
    s.set(1, &e, 2);
    assert_eq!(s.get(0, &BoolSpec), Ok(true));
    assert_eq!(s.get(1, &e), Ok(2));
    assert_eq!(s.as_bytes(), &vec![0b1110_0000]);
    s.set(0, &BoolSpec, false);
    assert_eq!(s.get(0, &BoolSpec), Ok(false));
    assert_eq!(s.get(1, &e), Ok(2));
}

#[test]
fn decoding_foreign_bytes() {
    let l = layout_of(&[2, 6]);
    let s = Bitfield::from_bytes(l, vec![0b1000_0001]);
    let e = enum_specifier(&vec![Some(1), Some(2), Some(0), Some(3)]).unwrap();
    assert_eq!(s.get(0, &e), Ok(1));
    assert_eq!(s.get_raw(1), 1);
}

#[test]
fn range_spanning_three_bytes_round_trips() {
    let mut buf: Vec<u8> = vec![0b1010_1010, 0b0101_0101, 0b1100_0011];
    write_bits(&mut buf, 4, 13, 0b1_1111_1111).unwrap();
    assert_eq!(read_bits(&buf, 4, 13), Ok(0b1_1111_1111));
    assert_eq!(buf, vec![0b1010_1111, 0b1111_1101, 0b1100_0011]);
    write_bits(&mut buf, 4, 13, 0).unwrap();
    assert_eq!(buf, vec![0b1010_0000, 0b0000_0101, 0b1100_0011]);
    write_bits(&mut buf, 4, 21, 0x1_ffff).unwrap();
    assert_eq!(read_bits(&buf, 4, 21), Ok(0x1_ffff));
    assert_eq!(buf, vec![0b1010_1111, 0b1111_1111, 0b1111_1011]);
}

#[test]
fn codec_edge_ranges() {
    let buf: Vec<u8> = vec![0b1011_0110, 0xff, 0x00, 0x81];
    assert_eq!(read_bits(&buf, 2, 5), Ok(0b110));
    assert_eq!(read_bits(&buf, 8, 16), Ok(0xff));
    assert_eq!(read_bits(&buf, 4, 28), Ok(0x6ff008));
    assert_eq!(read_bits(&buf, 0, 32), Ok(0xb6ff_0081));
    let mut w = buf.clone();
    write_bits(&mut w, 3, 5, 0b101).unwrap();
    assert_eq!(w[0], 0b1010_1110);
    let mut big = vec![0u8; 17];
    write_bits(&mut big, 4, 132, u128::MAX).unwrap();
    assert_eq!(read_bits(&big, 4, 132), Ok(u128::MAX));
    assert_eq!(big[0], 0x0f);
    assert_eq!(big[16], 0xf0);
}

#[test]
fn codec_rejects_bad_ranges() {
    let mut buf: Vec<u8> = vec![1, 2];
    assert_eq!(read_bits(&buf, 3, 3), Err(BitfieldError::EmptyRange));
    assert_eq!(read_bits(&buf, 5, 3), Err(BitfieldError::EmptyRange));
    assert_eq!(read_bits(&buf, 10, 17), Err(BitfieldError::OutOfBounds));
    assert_eq!(write_bits(&mut buf, 7, 7, 1), Err(BitfieldError::EmptyRange));
    assert_eq!(write_bits(&mut buf, 9, 17, 1), Err(BitfieldError::OutOfBounds));
    assert_eq!(buf, vec![1, 2]);
    assert_eq!(read_bits(&buf, 9, 16), Ok(2));
}

#[test]
fn dump_shows_binary_bytes() {
    let s = Bitfield::from_bytes(layout_of(&[8, 8]), vec![0b1010_0000, 5]);
    assert_eq!(s.dump(), vec!["10100000".to_string(), "00000101".to_string()]);
    assert_eq!(binary_string(0), "00000000");
    assert_eq!(binary_string(255), "11111111");
}

#[test]
fn malformed_bool_repr_is_reported() {
    let e = Bits { width: 2 };
    let s = Bitfield::from_bytes(layout_of(&[2, 6]), vec![0b1000_0000]);
    assert_eq!(s.get(0, &e), Ok(2));
    assert_eq!(BoolSpec.from_bit_repr(2), Err(BitfieldError::MalformedRepr));
}
