use simplicity::{Final, ValueCompact};
use std::sync::Arc;

#[test]
fn pruning_to_the_same_type_has_no_effect() {
    for v in [
        ValueCompact::unit(),
        ValueCompact::u1(1),
        ValueCompact::u16(0xbeef),
        ValueCompact::some(ValueCompact::u8(3)),
        ValueCompact::product(ValueCompact::u4(3), ValueCompact::some(ValueCompact::u2(1))),
    ] {
        assert_eq!(v.prune(v.ty()), Some(v));
    }
}

#[test]
fn pruning_to_unit() {
    let v = ValueCompact::some(ValueCompact::u16(0xbeef));
    assert_eq!(v.prune(&Final::unit()), Some(ValueCompact::unit()));
}

#[test]
fn pruning_a_left_value() {
    let inner = ValueCompact::product(ValueCompact::u8(0xab), ValueCompact::u8(0xcd));
    let v = ValueCompact::left(inner, Final::two_two_n(2));
    let small = Final::sum(
        Final::product(Final::two_two_n(3), Final::unit()),
        Final::unit(),
    );
    let pruned = v.prune(&small).unwrap();
    assert_eq!(pruned.ty(), &*small);
    assert_eq!(
        pruned,
        ValueCompact::left(
            ValueCompact::product(ValueCompact::u8(0xab), ValueCompact::unit()),
            Final::unit()
        )
    );
}

#[test]
fn pruning_a_right_value() {
    let inner = ValueCompact::product(ValueCompact::u8(0xab), ValueCompact::u8(0xcd));
    let v = ValueCompact::right(Final::two_two_n(2), inner);
    let small = Final::sum(
        Final::two_two_n(2),
        Final::product(Final::unit(), Final::two_two_n(3)),
    );
    let pruned = v.prune(&small).unwrap();
    let expected = ValueCompact::right(
        Final::two_two_n(2),
        ValueCompact::product(ValueCompact::unit(), ValueCompact::u8(0xcd)),
    );
    assert_eq!(pruned.ty(), &*small);
    assert_eq!(pruned.as_ref().iter_bits(), expected.as_ref().iter_bits());
    assert_eq!(pruned.to_string(), "R((ε,0xcd))");
    // The byte in front of the part that was kept is still in the buffer.
    assert_eq!(pruned.raw_bytes(), &[0xab, 0xcd][..]);
    assert_eq!(pruned, expected);
}

#[test]
fn pruning_both_parts_of_a_product() {
    let v = ValueCompact::product(
        ValueCompact::u8(0xab),
        ValueCompact::product(ValueCompact::u8(0x12), ValueCompact::u4(0x3)),
    );
    let small = Final::product(
        Final::two_two_n(3),
        Final::product(Final::unit(), Final::two_two_n(2)),
    );
    let pruned = v.prune(&small).unwrap();
    assert_eq!(pruned.len(), 12);
    assert_eq!(pruned.to_string(), "(0xab,(ε,0x3))");
    assert_eq!(
        pruned,
        ValueCompact::product(
            ValueCompact::u8(0xab),
            ValueCompact::product(ValueCompact::unit(), ValueCompact::u4(0x3))
        )
    );
}

#[test]
fn pruning_one_part_of_a_product() {
    let v = ValueCompact::product(ValueCompact::u1(1), ValueCompact::u1(0));
    assert_eq!(
        v.prune(&Final::product(Final::unit(), Final::two_two_n(0))),
        Some(ValueCompact::product(ValueCompact::unit(), ValueCompact::u1(0)))
    );
    assert_eq!(
        v.prune(&Final::product(Final::two_two_n(0), Final::unit())),
        Some(ValueCompact::product(ValueCompact::u1(1), ValueCompact::unit()))
    );
}

#[test]
fn pruning_around_a_unit() {
    let v = ValueCompact::none(Final::two_two_n(0));
    let bit = Final::two_two_n(0);
    assert_eq!(v.prune(&Final::sum(Final::unit(), Final::unit())).unwrap().to_string(), "0b0");
    let v = ValueCompact::right(bit, ValueCompact::unit());
    assert_eq!(v.prune(&Final::two_two_n(0)), Some(ValueCompact::u1(1)));
}

#[test]
fn pruning_steps_compose() {
    let v = ValueCompact::product(
        ValueCompact::some(ValueCompact::u8(0x5a)),
        ValueCompact::u4(0x3),
    );
    let option = Final::sum(Final::unit(), Final::two_two_n(3));
    let middle = Final::product(Arc::clone(&option), Final::unit());
    let small = Final::product(Final::sum(Final::unit(), Final::unit()), Final::unit());
    let once = v.prune(&small).unwrap();
    let twice = v.prune(&middle).unwrap().prune(&small).unwrap();
    assert_eq!(once, twice);
    assert_eq!(once.len(), 1);
    assert_eq!(once.to_string(), "(0b1,ε)");
}

#[test]
fn pruning_to_a_larger_type_fails() {
    let v = ValueCompact::u8(1);
    assert_eq!(v.prune(&Final::two_two_n(4)), None);
    assert_eq!(v.prune(&Final::two_two_n(2)), None);
    assert_eq!(ValueCompact::unit().prune(&Final::two_two_n(0)), None);
    assert_eq!(v.prune(&Final::sum(Final::unit(), Final::unit())), None);
    assert_eq!(
        ValueCompact::u1(0).prune(&Final::product(Final::unit(), Final::unit())),
        None
    );
}

#[test]
fn pruning_looks_at_the_side_that_is_not_taken() {
    let v = ValueCompact::left(ValueCompact::u8(1), Final::two_two_n(0));
    let larger = Final::sum(Final::two_two_n(3), Final::two_two_n(1));
    assert_eq!(v.prune(&larger), None);
    let v = ValueCompact::right(Final::unit(), ValueCompact::u8(1));
    let larger = Final::sum(Final::two_two_n(0), Final::two_two_n(3));
    assert_eq!(v.prune(&larger), None);
}
