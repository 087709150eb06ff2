use simplicity::{Final, ValueCompact};

#[test]
fn unit_is_displayed() {
    assert_eq!(ValueCompact::unit().to_string(), "ε");
}

#[test]
fn numbers_are_displayed_in_full() {
    assert_eq!(ValueCompact::u2(2).to_string(), "0b10");
    assert_eq!(ValueCompact::u4(0).to_string(), "0x0");
    assert_eq!(ValueCompact::u8(0x0f).to_string(), "0x0f");
    assert_eq!(ValueCompact::u32(0x89abcdef).to_string(), "0x89abcdef");
    assert_eq!(ValueCompact::u64(0x0123456789abcdef).to_string(), "0x0123456789abcdef");
    assert_eq!(ValueCompact::u512([0x1e; 64]).to_string(), format!("0x{}", "1e".repeat(64)));
}

#[test]
fn options_of_unit_are_bits() {
    assert_eq!(ValueCompact::none(Final::unit()).to_string(), "0b0");
    assert_eq!(ValueCompact::some(ValueCompact::unit()).to_string(), "0b1");
}

#[test]
fn sums_are_displayed() {
    assert_eq!(ValueCompact::none(Final::two_two_n(3)).to_string(), "L(ε)");
    assert_eq!(ValueCompact::some(ValueCompact::u8(0xab)).to_string(), "R(0xab)");
    assert_eq!(
        ValueCompact::left(ValueCompact::some(ValueCompact::u2(1)), Final::unit()).to_string(),
        "L(R(0b01))"
    );
}

#[test]
fn products_are_displayed() {
    assert_eq!(
        ValueCompact::product(ValueCompact::u8(1), ValueCompact::u4(2)).to_string(),
        "(0x01,0x2)"
    );
    assert_eq!(
        ValueCompact::product(ValueCompact::u8(1), ValueCompact::u8(2)).to_string(),
        "0x0102"
    );
    assert_eq!(
        ValueCompact::product(
            ValueCompact::product(ValueCompact::unit(), ValueCompact::u1(1)),
            ValueCompact::some(ValueCompact::u16(7)),
        )
        .to_string(),
        "((ε,0b1),R(0x0007))"
    );
}

#[test]
fn text_does_not_depend_on_the_buffer() {
    let v = ValueCompact::product(
        ValueCompact::right(Final::unit(), ValueCompact::u4(6)),
        ValueCompact::u2(3),
    );
    assert_eq!(v.to_string(), "(R(0x6),0b11)");
    let (l, r) = v.as_ref().as_product().unwrap();
    assert_eq!(l.to_value().to_string(), "R(0x6)");
    assert_eq!(l.as_right().unwrap().to_value().to_string(), "0x6");
    assert_eq!(r.to_value().to_string(), "0b11");
}

#[test]
fn values_are_debugged() {
    let bit = ValueCompact::u1(1);
    assert_eq!(
        format!("{:?}", bit),
        format!(
            "Value {{ value: 0b1, ty: {:?}, raw_value: [1], compact_bits: 1 }}",
            bit.ty()
        )
    );
    let v = ValueCompact::some(ValueCompact::u16(0x1234));
    let part = v.as_ref().as_right().unwrap().to_value();
    assert_eq!(
        format!("{:?}", part),
        format!(
            "Value {{ value: 0x1234, ty: {:?}, raw_value: [1, 18, 52], compact_bits: 16 }}",
            part.ty()
        )
    );
    let unit = ValueCompact::unit();
    assert!(format!("{:#?}", unit).starts_with("Value {\n    value: ε,\n    ty: Final {\n"));
}
