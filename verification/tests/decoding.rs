use simplicity::{BitIter, EarlyEndOfStreamError, Final, ValueCompact};

fn pack(bits: &[bool]) -> Vec<u8> {
    let mut bytes = vec![0u8; (bits.len() + 7) / 8];
    for (i, bit) in bits.iter().enumerate() {
        if *bit {
            bytes[i / 8] |= 0x80 >> (i % 8);
        }
    }
    bytes
}

#[test]
fn bits_are_read_in_order() {
    let mut bits = BitIter::new(vec![0b1010_0001u8, 0xff].into_iter());
    let mut read = Vec::new();
    while let Some(bit) = bits.next() {
        read.push(u8::from(bit));
    }
    assert_eq!(read, [1, 0, 1, 0, 0, 0, 0, 1, 1, 1, 1, 1, 1, 1, 1, 1]);
    assert_eq!(bits.next(), None);
    let mut bits = BitIter::new([0x01u8, 0x80].iter().copied());
    bits.skip(7);
    assert_eq!(bits.next(), Some(true));
    assert_eq!(bits.next(), Some(true));
    bits.skip(100);
    assert_eq!(bits.next(), None);
}

#[test]
fn compact_bits_read_back() {
    for v in [
        ValueCompact::unit(),
        ValueCompact::u1(1),
        ValueCompact::u4(6),
        ValueCompact::u16(0xbeef),
        ValueCompact::none(Final::two_two_n(9)),
        ValueCompact::some(ValueCompact::u64(0x0123456789abcdef)),
        ValueCompact::product(ValueCompact::u4(3), ValueCompact::some(ValueCompact::u2(1))),
        ValueCompact::product(
            ValueCompact::left(ValueCompact::u8(0x80), Final::two_two_n(6)),
            ValueCompact::right(Final::unit(), ValueCompact::u1(0)),
        ),
    ] {
        let bytes = pack(&v.as_ref().iter_bits());
        let mut bits = BitIter::new(bytes.into_iter());
        let read = ValueCompact::from_compact_bits(&mut bits, v.ty()).unwrap();
        assert_eq!(read, v);
        assert_eq!(read.as_ref().iter_bits(), v.as_ref().iter_bits());
    }
}

#[test]
fn compact_bits_are_consumed_one_value_at_a_time() {
    let ty = Final::two_two_n(2);
    let mut bits = BitIter::new(vec![0x6b].into_iter());
    assert_eq!(
        ValueCompact::from_compact_bits(&mut bits, &ty),
        Ok(ValueCompact::u4(0x6))
    );
    assert_eq!(
        ValueCompact::from_compact_bits(&mut bits, &ty),
        Ok(ValueCompact::u4(0xb))
    );
    assert_eq!(
        ValueCompact::from_compact_bits(&mut bits, &ty),
        Err(EarlyEndOfStreamError)
    );
    assert_eq!(bits.next(), None);
}

#[test]
fn compact_bits_across_bytes() {
    let ty = Final::product(Final::two_two_n(3), Final::two_two_n(2));
    let mut bits = BitIter::new(vec![0xab, 0xc5].into_iter());
    let v = ValueCompact::from_compact_bits(&mut bits, &ty).unwrap();
    assert_eq!(v.raw_bytes(), &[0x0a, 0xbc][..]);
    assert_eq!(v.to_string(), "(0xab,0xc)");
    assert_eq!(bits.next(), Some(false));
}

#[test]
fn compact_bits_of_a_sum() {
    let ty = Final::sum(Final::two_two_n(0), Final::two_two_n(3));
    let mut bits = BitIter::new(vec![0b0110_1010, 0b1110_0000].into_iter());
    let l = ValueCompact::from_compact_bits(&mut bits, &ty).unwrap();
    assert_eq!(l.to_string(), "L(0b1)");
    let r = ValueCompact::from_compact_bits(&mut bits, &ty).unwrap();
    assert_eq!(r.to_string(), "R(0x57)");
    assert_eq!(r.raw_bytes(), &[0x01, 0x57][..]);
    assert_eq!(
        ValueCompact::from_compact_bits(&mut bits, &ty),
        Ok(ValueCompact::left(ValueCompact::u1(0), Final::two_two_n(3)))
    );
}

#[test]
fn values_without_bits_need_no_stream() {
    let ty = Final::product(Final::unit(), Final::unit());
    let mut bits = BitIter::new(Vec::new().into_iter());
    let v = ValueCompact::from_compact_bits(&mut bits, &ty).unwrap();
    assert_eq!(v, ValueCompact::product(ValueCompact::unit(), ValueCompact::unit()));
    assert_eq!(ValueCompact::from_padded_bits(&mut bits, &ty), Ok(v));
}

#[test]
fn streams_that_end_early() {
    let ty = Final::two_two_n(4);
    let mut bits = BitIter::new(vec![0xff].into_iter());
    assert_eq!(
        ValueCompact::from_compact_bits(&mut bits, &ty),
        Err(EarlyEndOfStreamError)
    );
    assert_eq!(bits.next(), None);
    let mut bits = BitIter::new(vec![0xff].into_iter());
    assert_eq!(
        ValueCompact::from_padded_bits(&mut bits, &ty),
        Err(EarlyEndOfStreamError)
    );
    assert_eq!(bits.next(), None);
}

#[test]
fn padding_of_a_left_value_is_skipped() {
    let ty = Final::sum(Final::unit(), Final::two_two_n(3));
    let mut bits = BitIter::new(vec![0x7f, 0xc0].into_iter());
    let v = ValueCompact::from_padded_bits(&mut bits, &ty).unwrap();
    assert_eq!(v, ValueCompact::none(Final::two_two_n(3)));
    assert_eq!(v.len(), 1);
    assert_eq!(bits.next(), Some(true));
    assert_eq!(bits.next(), Some(false));
}

#[test]
fn padding_of_a_right_value_is_skipped() {
    let ty = Final::sum(Final::two_two_n(3), Final::two_two_n(2));
    // A tag, four bits of padding and four bits of value.
    let mut bits = BitIter::new(vec![0b1_1010_011, 0b0_1_000000].into_iter());
    let v = ValueCompact::from_padded_bits(&mut bits, &ty).unwrap();
    assert_eq!(v, ValueCompact::right(Final::two_two_n(3), ValueCompact::u4(6)));
    assert_eq!(bits.next(), Some(true));
}

#[test]
fn wider_side_has_no_padding() {
    let ty = Final::sum(Final::unit(), Final::two_two_n(3));
    let mut bits = BitIter::new(vec![0xd5, 0x80].into_iter());
    assert_eq!(
        ValueCompact::from_padded_bits(&mut bits, &ty),
        Ok(ValueCompact::some(ValueCompact::u8(0xab)))
    );
    let ty = Final::sum(Final::two_two_n(3), Final::unit());
    let mut bits = BitIter::new(vec![0x55, 0x80].into_iter());
    assert_eq!(
        ValueCompact::from_padded_bits(&mut bits, &ty),
        Ok(ValueCompact::left(ValueCompact::u8(0xab), Final::unit()))
    );
}

#[test]
fn stream_may_end_inside_of_padding() {
    let ty = Final::sum(Final::unit(), Final::two_two_n(3));
    let mut bits = BitIter::new(vec![0x00].into_iter());
    assert_eq!(
        ValueCompact::from_padded_bits(&mut bits, &ty),
        Ok(ValueCompact::none(Final::two_two_n(3)))
    );
    assert_eq!(bits.next(), None);
}

#[test]
fn words_are_the_same_in_both_encodings() {
    let bytes = vec![0x12, 0x34, 0x56, 0x78];
    let ty = Final::two_two_n(5);
    let mut bits = BitIter::new(bytes.clone().into_iter());
    let compact = ValueCompact::from_compact_bits(&mut bits, &ty).unwrap();
    let mut bits = BitIter::new(bytes.into_iter());
    let padded = ValueCompact::from_padded_bits(&mut bits, &ty).unwrap();
    assert_eq!(compact, padded);
    assert_eq!(compact, ValueCompact::u32(0x12345678));
}

#[test]
fn any_iterator_of_bytes_is_a_stream() {
    let mut left = 3u8;
    let countdown = std::iter::from_fn(move || {
        if left == 0 {
            None
        } else {
            left -= 1;
            Some(0x10 * left + 5)
        }
    });
    let mut bits = BitIter::new(countdown);
    let ty = Final::product(Final::two_two_n(3), Final::two_two_n(2));
    let v = ValueCompact::from_compact_bits(&mut bits, &ty).unwrap();
    assert_eq!(v.to_string(), "(0x25,0x1)");
    assert_eq!(bits.next(), Some(false));
    assert_eq!(
        ValueCompact::from_compact_bits(&mut bits, &Final::two_two_n(4)),
        Err(EarlyEndOfStreamError)
    );
    let mut endless = BitIter::new(std::iter::repeat(0xa5u8));
    let v = ValueCompact::from_padded_bits(&mut endless, &Final::two_two_n(4)).unwrap();
    assert_eq!(v, ValueCompact::u16(0xa5a5));
    assert_eq!(endless.next(), Some(true));
}

#[test]
fn missing_padding_is_passed_over() {
    let mut step = 0;
    let stutter = std::iter::from_fn(move || {
        step += 1;
        match step {
            1 => Some(0x80u8),
            2 => None,
            3 => Some(0x7f),
            _ => None,
        }
    });
    let mut bits = BitIter::new(stutter);
    let ty = Final::sum(Final::two_two_n(3), Final::unit());
    let v = ValueCompact::from_padded_bits(&mut bits, &ty).unwrap();
    assert_eq!(v, ValueCompact::right(Final::two_two_n(3), ValueCompact::unit()));
    for i in 0..8 {
        assert_eq!(bits.next(), Some(i > 0));
    }
    assert_eq!(
        ValueCompact::from_padded_bits(&mut bits, &ty),
        Err(EarlyEndOfStreamError)
    );
}
