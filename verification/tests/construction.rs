use simplicity::{BitIter, CompleteBound, Final, ValueCompact};
use std::sync::Arc;

fn text(bits: &[bool]) -> String {
    bits.iter().map(|bit| if *bit { '1' } else { '0' }).collect()
}

fn bits(value: &ValueCompact) -> String {
    text(&value.as_ref().iter_bits())
}

#[test]
fn unit_has_no_bits() {
    let unit = ValueCompact::unit();
    assert_eq!(unit.len(), 0);
    assert_eq!(unit.raw_len(), 0);
    assert!(unit.raw_bytes().is_empty());
    assert!(unit.as_ref().is_unit());
    assert!(unit.ty().is_unit());
    assert!(unit.as_ref().as_left().is_none());
    assert!(unit.as_ref().as_right().is_none());
    assert!(unit.as_ref().as_product().is_none());
}

#[test]
fn small_integers() {
    assert_eq!(bits(&ValueCompact::u1(0)), "0");
    assert_eq!(bits(&ValueCompact::u1(1)), "1");
    assert_eq!(bits(&ValueCompact::u2(2)), "10");
    assert_eq!(bits(&ValueCompact::u4(6)), "0110");
    assert_eq!(bits(&ValueCompact::u8(0x9d)), "10011101");
    assert_eq!(ValueCompact::u2(3).raw_bytes(), &[3][..]);
    assert_eq!(ValueCompact::u4(15).raw_bytes(), &[15][..]);
    assert_eq!(ValueCompact::u1(1).ty(), &*Final::two_two_n(0));
    assert_eq!(ValueCompact::u2(1).ty(), &*Final::two_two_n(1));
    assert_eq!(ValueCompact::u4(1).ty(), &*Final::two_two_n(2));
    assert_eq!(ValueCompact::u8(1).ty(), &*Final::two_two_n(3));
}

#[test]
fn large_integers() {
    let v = ValueCompact::u16(0xabcd);
    assert_eq!(v.raw_bytes(), &[0xab, 0xcd][..]);
    assert_eq!(bits(&v), "1010101111001101");
    assert_eq!(v.ty(), &*Final::two_two_n(4));
    let v = ValueCompact::u32(0x01020304);
    assert_eq!(v.raw_bytes(), &[1, 2, 3, 4][..]);
    assert_eq!(v.ty(), &*Final::two_two_n(5));
    let v = ValueCompact::u64(0x0102030405060708);
    assert_eq!(v.raw_bytes(), &[1, 2, 3, 4, 5, 6, 7, 8][..]);
    assert_eq!(v.ty(), &*Final::two_two_n(6));
    let v = ValueCompact::u128(0xff02030405060708090a0b0c0d0e0f10);
    assert_eq!(
        v.raw_bytes(),
        &[0xff, 2, 3, 4, 5, 6, 7, 8, 9, 10, 11, 12, 13, 14, 15, 16][..]
    );
    assert_eq!(v.ty(), &*Final::two_two_n(7));
    let mut bytes = [0u8; 32];
    bytes[0] = 0x80;
    bytes[31] = 7;
    let v = ValueCompact::u256(bytes);
    assert_eq!(v.raw_bytes(), &bytes[..]);
    assert_eq!(v.len(), 256);
    assert_eq!(v.ty(), &*Final::two_two_n(8));
    let mut bytes = [0u8; 64];
    bytes[0] = 0x80;
    bytes[63] = 7;
    let v = ValueCompact::u512(bytes);
    assert_eq!(v.raw_bytes(), &bytes[..]);
    assert_eq!(v.len(), 512);
    assert_eq!(v.raw_len(), 512);
    assert_eq!(v.ty(), &*Final::two_two_n(9));
}

#[test]
fn integers_are_equal_as_numbers() {
    for x in 0..16 {
        for y in 0..16 {
            assert_eq!(ValueCompact::u4(x) == ValueCompact::u4(y), x == y);
        }
    }
    assert_ne!(ValueCompact::u4(6), ValueCompact::u8(6));
}

#[test]
fn left_is_unwrapped() {
    let v = ValueCompact::left(ValueCompact::u4(9), Final::two_two_n(3));
    assert_eq!(bits(&v), "01001");
    assert_eq!(v.len(), 5);
    assert_eq!(v.raw_bytes(), &[0b0000_1001][..]);
    assert_eq!(v.ty(), &*Final::sum(Final::two_two_n(2), Final::two_two_n(3)));
    let inner = v.as_ref().as_left().unwrap();
    assert_eq!(inner.to_value(), ValueCompact::u4(9));
    assert!(v.as_ref().as_right().is_none());
    assert!(v.as_ref().as_product().is_none());
}

#[test]
fn right_is_unwrapped() {
    let v = ValueCompact::right(Final::two_two_n(3), ValueCompact::u4(9));
    assert_eq!(bits(&v), "11001");
    assert_eq!(v.raw_bytes(), &[0b0001_1001][..]);
    assert_eq!(v.ty(), &*Final::sum(Final::two_two_n(3), Final::two_two_n(2)));
    let inner = v.as_ref().as_right().unwrap();
    assert_eq!(text(&inner.iter_bits()), "1001");
    assert!(v.as_ref().as_left().is_none());
    assert!(v.as_ref().as_product().is_none());
}

#[test]
fn tag_grows_a_full_buffer() {
    let l = ValueCompact::left(ValueCompact::u8(0xff), Final::unit());
    assert_eq!(l.raw_bytes(), &[0x00, 0xff][..]);
    assert_eq!(l.len(), 9);
    assert_eq!(l.raw_len(), 16);
    let r = ValueCompact::right(Final::unit(), ValueCompact::u8(0x0f));
    assert_eq!(r.raw_bytes(), &[0x01, 0x0f][..]);
    let rl = ValueCompact::right(Final::unit(), l);
    assert_eq!(rl.raw_bytes(), &[0x02, 0xff][..]);
    assert_eq!(rl.len(), 10);
}

#[test]
fn product_is_unwrapped() {
    let v = ValueCompact::product(ValueCompact::u8(0xab), ValueCompact::u4(0xc));
    assert_eq!(bits(&v), "101010111100");
    assert_eq!(v.raw_bytes(), &[0x0a, 0xbc][..]);
    let (l, r) = v.as_ref().as_product().unwrap();
    assert_eq!(l.len(), 8);
    assert_eq!(r.len(), 4);
    assert_eq!(l.to_value(), ValueCompact::u8(0xab));
    assert_eq!(text(&r.iter_bits()), "1100");
    assert!(v.as_ref().as_left().is_none());
    assert!(v.as_ref().as_right().is_none());
}

#[test]
fn product_with_unit_keeps_the_buffer() {
    let v = ValueCompact::product(ValueCompact::unit(), ValueCompact::u4(5));
    assert_eq!(v.len(), 4);
    assert_eq!(v.raw_bytes(), &[5][..]);
    let v = ValueCompact::product(ValueCompact::u4(5), ValueCompact::unit());
    assert_eq!(v.len(), 4);
    assert_eq!(v.raw_bytes(), &[5][..]);
    let v = ValueCompact::product(ValueCompact::unit(), ValueCompact::unit());
    assert_eq!(v.len(), 0);
    assert_eq!(v.raw_len(), 0);
    assert!(!v.as_ref().is_unit());
    let (l, r) = v.as_ref().as_product().unwrap();
    assert!(l.is_unit() && r.is_unit());
}

#[test]
fn reference_converts_back() {
    let v = ValueCompact::some(ValueCompact::u16(0x1234));
    assert_eq!(v.as_ref().to_value(), v);
    assert_eq!(v.shallow_clone(), v);
    assert_eq!(v.clone(), v);
}

#[test]
fn part_at_the_end_shares_the_buffer() {
    let v = ValueCompact::some(ValueCompact::u16(0x1234));
    let part = v.as_ref().as_right().unwrap().to_value();
    assert_eq!(part.len(), 16);
    assert_eq!(part.raw_len(), 24);
    assert_eq!(part, ValueCompact::u16(0x1234));
}

#[test]
fn part_in_the_middle_is_copied() {
    let v = ValueCompact::product(
        ValueCompact::product(ValueCompact::u4(1), ValueCompact::u4(0xe)),
        ValueCompact::u4(0xf),
    );
    let (l, _) = v.as_ref().as_product().unwrap();
    let (ll, lr) = l.as_product().unwrap();
    assert_eq!(l.to_value(), ValueCompact::u8(0x1e));
    assert_eq!(ll.to_value(), ValueCompact::u4(1));
    assert_eq!(lr.to_value(), ValueCompact::u4(0xe));
    assert_eq!(lr.to_value().raw_len(), 8);
}

#[test]
fn bits_in_front_do_not_count_for_equality() {
    let v = ValueCompact::some(ValueCompact::u4(6));
    let part = v.as_ref().as_right().unwrap().to_value();
    assert_eq!(part.raw_bytes(), &[0x16][..]);
    assert_eq!(bits(&part), "0110");
    assert_eq!(part, ValueCompact::u4(6));
    assert_ne!(part, ValueCompact::u4(7));
}

#[test]
fn unwrapping_undoes_wrapping() {
    let six = ValueCompact::u4(6);
    let v = ValueCompact::product(six.clone(), six.clone());
    let (l, r) = v.as_ref().as_product().unwrap();
    assert_eq!(l.to_value(), six);
    assert_eq!(r.to_value(), six);
    let v = ValueCompact::right(Final::two_two_n(5), six.clone());
    assert_eq!(v.as_ref().as_right().unwrap().to_value(), six);
    let v = ValueCompact::left(v, Final::unit());
    let part = v.as_ref().as_left().unwrap().as_right().unwrap().to_value();
    assert_eq!(part, six);
}

#[test]
fn types_can_be_as_wide_as_can_be_counted() {
    let mut word = Final::two_two_n(1);
    let mut wide = Arc::clone(&word);
    for _ in 2..usize::BITS {
        word = Final::product(Arc::clone(&word), word);
        wide = Final::product(wide, Arc::clone(&word));
    }
    assert_eq!(wide.bit_width(), usize::MAX - 1);
    let none = ValueCompact::none(Arc::clone(&wide));
    assert_eq!(none.ty().bit_width(), usize::MAX);
    assert_eq!(none.len(), 1);
    assert_eq!(none.as_ref().to_value(), none);
    let mut stream = BitIter::new(vec![0x00].into_iter());
    assert!(ValueCompact::from_compact_bits(&mut stream, none.ty()) == Ok(none));
}

#[test]
fn left_clears_the_bit_in_front() {
    let v = ValueCompact::some(ValueCompact::u4(6));
    let part = v.as_ref().as_right().unwrap().to_value();
    let l = ValueCompact::left(part, Final::unit());
    assert_eq!(bits(&l), "00110");
    assert_eq!(l.raw_bytes(), &[0x06][..]);
    assert!(l.as_ref().as_left().is_some());
    assert!(l.as_ref().as_right().is_none());
}

#[test]
fn unit_part_can_be_wrapped() {
    let v = ValueCompact::some(ValueCompact::unit());
    let part = v.as_ref().as_right().unwrap().to_value();
    assert_eq!(part.len(), 0);
    assert_eq!(part.raw_len(), 8);
    assert_eq!(bits(&ValueCompact::some(part.shallow_clone())), "1");
    assert_eq!(bits(&ValueCompact::left(part, Final::unit())), "0");
}

#[test]
fn equality_needs_the_same_type() {
    let one = ValueCompact::none(Final::two_two_n(0));
    let other = ValueCompact::none(Final::two_two_n(1));
    assert_eq!(one.raw_bytes(), other.raw_bytes());
    assert_eq!(one.len(), other.len());
    assert_ne!(one, other);
}

#[test]
fn structure_follows_type() {
    let sum = ValueCompact::none(Final::two_two_n(3));
    assert!(sum.as_ref().as_left().unwrap().is_unit());
    let bit = ValueCompact::u1(1);
    assert!(bit.as_ref().as_right().unwrap().is_unit());
    let word = ValueCompact::u2(1);
    let (l, r) = word.as_ref().as_product().unwrap();
    assert!(l.as_left().is_some());
    assert!(r.as_right().is_some());
}

#[test]
fn types_have_widths() {
    assert_eq!(Final::unit().bit_width(), 0);
    assert_eq!(Final::two_two_n(0).bit_width(), 1);
    assert_eq!(Final::two_two_n(5).bit_width(), 32);
    assert_eq!(Final::two_two_n(31).bit_width(), 1 << 31);
    let sum = Final::sum(Final::two_two_n(2), Final::two_two_n(4));
    assert_eq!(sum.bit_width(), 17);
    let product = Final::product(Arc::clone(&sum), Final::two_two_n(1));
    assert_eq!(product.bit_width(), 19);
}

#[test]
fn types_are_taken_apart() {
    let sum = Final::sum(Final::unit(), Final::two_two_n(1));
    let (l, r) = sum.as_sum().unwrap();
    assert!(l.is_unit());
    assert_eq!(&**r, &*Final::two_two_n(1));
    assert!(sum.as_product().is_none());
    assert!(matches!(sum.bound(), CompleteBound::Sum(..)));
    let product = Final::two_two_n(1);
    let (l, r) = product.as_product().unwrap();
    assert_eq!(l, r);
    assert!(product.as_sum().is_none());
    assert!(matches!(product.bound(), CompleteBound::Product(..)));
    assert!(matches!(Final::unit().bound(), CompleteBound::Unit));
}

#[test]
fn types_are_compared_by_structure() {
    let bit = Final::sum(Final::unit(), Final::unit());
    assert_eq!(bit, Final::two_two_n(0));
    assert_eq!(
        Final::product(Arc::clone(&bit), Arc::clone(&bit)),
        Final::two_two_n(1)
    );
    assert_eq!(Final::two_two_n(31), Final::two_two_n(31));
    assert_ne!(Final::two_two_n(31), Final::two_two_n(30));
    assert_ne!(bit, Final::unit());
    let odd = Final::sum(Final::unit(), Arc::clone(&bit));
    assert_ne!(odd, bit);
    assert_eq!(*odd, (*odd).clone());
    assert_eq!(odd.word_exponent(), None);
    assert_eq!(Final::two_two_n(7).word_exponent(), Some(7));
}

#[test]
fn built_values_are_right_aligned() {
    let v = ValueCompact::left(
        ValueCompact::product(ValueCompact::u2(3), ValueCompact::u8(0xff)),
        Final::unit(),
    );
    assert_eq!(v.raw_bytes(), &[0x03, 0xff][..]);
    assert_eq!(v.raw_len(), 16);
    let v = ValueCompact::right(Final::unit(), v);
    assert_eq!(v.raw_bytes(), &[0x0b, 0xff][..]);
    assert_eq!(v.raw_len(), 16);
}
