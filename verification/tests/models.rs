use fatescroll::models::ModifierRange;

#[test]
fn models_modifier_range_converts_from_and_to_pairs() {
    let m = ModifierRange::from([-2, 5]);
    assert_eq!(m, ModifierRange { min: -2, max: 5 });
    let pair: [i32; 2] = m.into();
    assert_eq!(pair, [-2, 5]);
}
