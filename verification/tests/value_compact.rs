use simplicity::{Final, ValueCompact};

#[test]
fn value_compact_len() {
    let v = ValueCompact::u4(6);
    let s_v = ValueCompact::some(v.shallow_clone());
    let n_v = ValueCompact::none(Final::two_two_n(2));

    assert_eq!(v.len(), 4);
    assert_eq!(v.raw_len(), 8);
    assert_eq!(s_v.len(), 5);
    assert_eq!(s_v.raw_len(), 8);
    assert_eq!(n_v.len(), 1);
    assert_eq!(n_v.raw_len(), 8);
}

#[test]
fn value_compact_display() {
    assert_eq!(ValueCompact::u1(0).to_string(), "0b0",);
    assert_eq!(ValueCompact::u1(1).to_string(), "0b1",);
    assert_eq!(ValueCompact::u4(6).to_string(), "0x6",);
}

#[test]
fn prune_compact_regression_1() {
    let nontrivial_sum = ValueCompact::product(
        ValueCompact::right(Final::two_two_n(4), ValueCompact::u16(0)),
        ValueCompact::u8(0),
    );
    // Formatting should succeed and have no effect.
    let _ = nontrivial_sum.to_string();
    // Pruning should succeed and have no effect.
    assert_eq!(
        nontrivial_sum.prune(nontrivial_sum.ty()),
        Some(nontrivial_sum)
    );
}
