use game_stat::{IntModifier, Modifier, Stat};

#[test]
fn int_flat_adds() {
    let mut value: i64 = 10;
    IntModifier::Flat(5).apply(&mut value);
    assert_eq!(value, 15);
    IntModifier::Flat(-20).apply(&mut value);
    assert_eq!(value, -5);
}

#[test]
fn int_flat_stops_at_the_bounds() {
    let mut value: i64 = i64::MAX - 1;
    IntModifier::Flat(5).apply(&mut value);
    assert_eq!(value, i64::MAX);
    let mut low: i64 = i64::MIN + 1;
    IntModifier::Flat(-5).apply(&mut low);
    assert_eq!(low, i64::MIN);
}

#[test]
fn int_times_multiplies() {
    let mut value: i64 = 7;
    IntModifier::Times(-3).apply(&mut value);
    assert_eq!(value, -21);
    IntModifier::Times(0).apply(&mut value);
    assert_eq!(value, 0);
}

#[test]
fn int_times_stops_at_the_bounds() {
    let mut value: i64 = i64::MAX / 2 + 1;
    IntModifier::Times(2).apply(&mut value);
    assert_eq!(value, i64::MAX);
    let mut negative: i64 = i64::MIN / 2 - 1;
    IntModifier::Times(2).apply(&mut negative);
    assert_eq!(negative, i64::MIN);
    let mut mixed: i64 = i64::MAX;
    IntModifier::Times(-2).apply(&mut mixed);
    assert_eq!(mixed, i64::MIN);
    let mut both: i64 = i64::MIN;
    IntModifier::Times(-1).apply(&mut both);
    assert_eq!(both, i64::MAX);
}

#[test]
fn int_default_orders() {
    assert_eq!(IntModifier::Flat(1).default_order(), 100);
    assert_eq!(IntModifier::Times(1).default_order(), 200);
}

#[test]
fn int_additions_come_before_multiplications() {
    let mut stat = Stat::<IntModifier, 3>::new(10);
    let _a = stat.add_modifier(IntModifier::Times(2)).unwrap();
    let _b = stat.add_modifier(IntModifier::Flat(5)).unwrap();
    assert_eq!(stat.value(), 30);
}

#[test]
fn read_with_every_owner_there() {
    let mut stat = Stat::<IntModifier, 3>::new(10);
    let _a = stat.add_modifier_with_order(IntModifier::Flat(5), 0).unwrap();
    let _b = stat.add_modifier_with_order(IntModifier::Times(2), 1).unwrap();
    assert_eq!(stat.value_with_liveness(&vec![true, true]), 30);
    assert_eq!(stat.liveness().len(), 2);
}

#[test]
fn read_with_an_owner_gone() {
    let mut stat = Stat::<IntModifier, 3>::new(10);
    let _a = stat.add_modifier_with_order(IntModifier::Flat(5), 0).unwrap();
    let _b = stat.add_modifier_with_order(IntModifier::Times(2), 1).unwrap();
    assert_eq!(stat.value_with_liveness(&vec![false, true]), 20);
    assert_eq!(stat.liveness().len(), 1);
    assert_eq!(stat.value(), 20);
}

#[test]
fn read_with_too_short_an_answer_drops_the_rest() {
    let mut stat = Stat::<IntModifier, 3>::new(10);
    let _a = stat.add_modifier_with_order(IntModifier::Flat(5), 0).unwrap();
    let _b = stat.add_modifier_with_order(IntModifier::Times(2), 1).unwrap();
    assert_eq!(stat.value_with_liveness(&vec![true]), 15);
    assert_eq!(stat.value_with_liveness(&Vec::new()), 10);
    assert_eq!(stat.liveness().len(), 0);
}

#[test]
fn read_with_too_long_an_answer_ignores_the_rest() {
    let mut stat = Stat::<IntModifier, 3>::new(10);
    let _a = stat.add_modifier_with_order(IntModifier::Flat(5), 0).unwrap();
    assert_eq!(stat.value_with_liveness(&vec![true, false, true, true]), 15);
    assert_eq!(stat.liveness().len(), 1);
}

#[test]
fn add_with_an_owner_gone_takes_its_place() {
    let mut stat = Stat::<IntModifier, 2>::new(10);
    let _a = stat.add_modifier_with_order(IntModifier::Flat(5), 0).unwrap();
    let _b = stat.add_modifier_with_order(IntModifier::Times(2), 1).unwrap();
    let full = stat.add_modifier_with_liveness(&vec![true, true], IntModifier::Flat(1), 2);
    assert!(full.is_err());
    assert_eq!(stat.liveness().len(), 2);
    let added = stat.add_modifier_with_liveness(&vec![false, true], IntModifier::Flat(1), 2);
    assert!(added.is_ok());
    assert_eq!(stat.liveness().len(), 2);
    assert_eq!(stat.value(), 21);
}

#[test]
fn add_ranks_the_newcomer_among_the_rest() {
    let mut stat = Stat::<IntModifier, 4>::new(1);
    let _a = stat.add_modifier_with_order(IntModifier::Times(10), 5).unwrap();
    let _b = stat.add_modifier_with_order(IntModifier::Flat(1), 1).unwrap();
    let _c = stat.add_modifier_with_liveness(&vec![true, true], IntModifier::Flat(3), 3).unwrap();
    assert_eq!(stat.value(), 50);
    let _d = stat.add_modifier_with_order(IntModifier::Times(2), 0).unwrap();
    assert_eq!(stat.value(), 60);
}

#[test]
fn failed_add_keeps_the_value_last_computed() {
    let mut stat = Stat::<IntModifier, 1>::new(10);
    let _a = stat.add_modifier(IntModifier::Flat(5)).unwrap();
    stat.set_base_value(100);
    let refused = stat.add_modifier_with_liveness(&vec![true], IntModifier::Flat(1), 0);
    assert!(refused.is_err());
    assert_eq!(stat.get_base_value(), 100);
    assert_eq!(stat.value(), 105);
}
