use game_stat::{Modifier, ModifiersFullError, Stat, StatModifierHandle};
use std::rc::Rc;

#[derive(Clone, Copy, Debug)]
enum Change {
    Plus(f32),
    Times(f32),
}

impl Modifier for Change {
    type Value = f32;

    fn applied(&self, value: f32) -> f32 {
        match *self {
            Change::Plus(amount) => value + amount,
            Change::Times(factor) => value * factor,
        }
    }

    fn intrinsic_order(&self) -> i32 {
        match *self {
            Change::Plus(_) => 10,
            Change::Times(_) => 20,
        }
    }

    fn apply(&self, value: &mut f32) {
        *value = self.applied(*value);
    }

    fn default_order(&self) -> i32 {
        self.intrinsic_order()
    }
}

fn full_error(added: Result<StatModifierHandle, ModifiersFullError>) -> bool {
    matches!(added, Err(ModifiersFullError))
}

#[test]
fn new_stat_reads_its_base_value() {
    let mut stat = Stat::<Change, 3>::new(10.0);
    assert_eq!(stat.base_value, 10.0);
    assert_eq!(stat.value(), 10.0);
    assert_eq!(stat.liveness(), Vec::<bool>::new());
}

#[test]
fn add_drop_and_add_again() {
    let mut stat = Stat::<Change, 3>::new(10.0);
    let a = stat.add_modifier_with_order(Change::Plus(5.0), 0).unwrap();
    let _b = stat.add_modifier_with_order(Change::Times(2.0), 1).unwrap();
    assert_eq!(stat.value(), 30.0);
    drop(a);
    assert_eq!(stat.value(), 20.0);
    let _c = stat.add_modifier_with_order(Change::Plus(100.0), -1).unwrap();
    assert_eq!(stat.value(), 220.0);
}

#[test]
fn capacity_one_refuses_a_second_modifier() {
    let mut stat = Stat::<Change, 1>::new(3.0);
    let first = stat.add_modifier_with_order(Change::Plus(4.0), 0);
    assert!(first.is_ok());
    let second = stat.add_modifier_with_order(Change::Times(10.0), 0);
    assert!(full_error(second));
    assert_eq!(stat.value(), 7.0);
}

#[test]
fn adds_up_to_capacity_give_distinct_live_handles() {
    let mut stat = Stat::<Change, 4>::new(1.0);
    let mut handles: Vec<StatModifierHandle> = Vec::new();
    for i in 0..4 {
        let handle = stat.add_modifier_with_order(Change::Plus(1.0), i).unwrap();
        handles.push(handle);
    }
    for i in 0..4 {
        assert_eq!(Rc::strong_count(&handles[i]), 1);
        assert_eq!(Rc::weak_count(&handles[i]), 1);
        for j in 0..i {
            assert!(!Rc::ptr_eq(&handles[i], &handles[j]));
        }
    }
    assert_eq!(stat.liveness(), vec![true, true, true, true]);
    assert_eq!(stat.value(), 5.0);
}

#[test]
fn add_beyond_capacity_fails_and_changes_nothing() {
    let mut stat = Stat::<Change, 2>::new(10.0);
    let _a = stat.add_modifier(Change::Plus(1.0)).unwrap();
    let _b = stat.add_modifier(Change::Times(3.0)).unwrap();
    assert_eq!(stat.value(), 33.0);
    let third = stat.add_modifier(Change::Plus(1000.0));
    assert!(full_error(third));
    assert_eq!(stat.liveness(), vec![true, true]);
    assert_eq!(stat.value(), 33.0);
    let fourth = stat.add_modifier_with_order(Change::Times(0.0), -5);
    assert!(full_error(fourth));
    assert_eq!(stat.value(), 33.0);
}

#[test]
fn failed_add_leaves_the_cached_value_alone() {
    let mut stat = Stat::<Change, 1>::new(10.0);
    let _a = stat.add_modifier(Change::Plus(1.0)).unwrap();
    stat.base_value = 20.0;
    assert!(full_error(stat.add_modifier(Change::Plus(2.0))));
    assert_eq!(stat.base_value, 20.0);
    assert_eq!(stat.value(), 21.0);
}

#[test]
fn dropping_a_handle_frees_a_place_in_a_full_stat() {
    let mut stat = Stat::<Change, 2>::new(10.0);
    let a = stat.add_modifier(Change::Plus(1.0)).unwrap();
    let _b = stat.add_modifier(Change::Times(3.0)).unwrap();
    assert!(full_error(stat.add_modifier(Change::Plus(5.0))));
    drop(a);
    let c = stat.add_modifier(Change::Plus(5.0));
    assert!(c.is_ok());
    assert_eq!(stat.value(), 45.0);
}

#[test]
fn dropping_every_handle_empties_the_stat() {
    let mut stat = Stat::<Change, 2>::new(10.0);
    let a = stat.add_modifier(Change::Plus(1.0)).unwrap();
    let b = stat.add_modifier(Change::Times(3.0)).unwrap();
    drop(a);
    drop(b);
    assert_eq!(stat.liveness(), vec![false, false]);
    assert_eq!(stat.value(), 10.0);
    assert_eq!(stat.liveness(), Vec::<bool>::new());
    let _c = stat.add_modifier(Change::Plus(2.0)).unwrap();
    let _d = stat.add_modifier(Change::Plus(3.0)).unwrap();
    assert_eq!(stat.value(), 15.0);
}

#[test]
fn dropped_modifier_counts_for_nothing_read_in_between() {
    let mut stat = Stat::<Change, 3>::new(2.0);
    let a = stat.add_modifier_with_order(Change::Plus(3.0), 1).unwrap();
    let b = stat.add_modifier_with_order(Change::Times(4.0), 2).unwrap();
    let _c = stat.add_modifier_with_order(Change::Plus(5.0), 3).unwrap();
    assert_eq!(stat.value(), 25.0);
    drop(a);
    assert_eq!(stat.value(), 13.0);
    drop(b);
    assert_eq!(stat.value(), 7.0);
}

#[test]
fn dropped_modifier_counts_for_nothing_not_read_in_between() {
    let mut stat = Stat::<Change, 3>::new(2.0);
    let a = stat.add_modifier_with_order(Change::Plus(3.0), 1).unwrap();
    let b = stat.add_modifier_with_order(Change::Times(4.0), 2).unwrap();
    let _c = stat.add_modifier_with_order(Change::Plus(5.0), 3).unwrap();
    drop(a);
    drop(b);
    assert_eq!(stat.value(), 7.0);
}

fn read_in_sequence(sequence: [usize; 3]) -> f32 {
    let changes = [
        (Change::Plus(5.0), 5),
        (Change::Plus(1.0), 1),
        (Change::Times(3.0), 3),
    ];
    let mut stat = Stat::<Change, 3>::new(10.0);
    let mut handles: Vec<StatModifierHandle> = Vec::new();
    for i in sequence {
        handles.push(stat.add_modifier_with_order(changes[i].0, changes[i].1).unwrap());
    }
    stat.value()
}

#[test]
fn orders_five_one_three_apply_as_one_three_five() {
    assert_eq!(read_in_sequence([0, 1, 2]), 38.0);
}

#[test]
fn insertion_sequence_does_not_matter() {
    assert_eq!(read_in_sequence([0, 2, 1]), 38.0);
    assert_eq!(read_in_sequence([1, 0, 2]), 38.0);
    assert_eq!(read_in_sequence([1, 2, 0]), 38.0);
    assert_eq!(read_in_sequence([2, 0, 1]), 38.0);
    assert_eq!(read_in_sequence([2, 1, 0]), 38.0);
}

#[test]
fn equal_orders_apply_in_the_sequence_they_were_added() {
    let mut stat = Stat::<Change, 3>::new(1.0);
    let _a = stat.add_modifier_with_order(Change::Plus(1.0), 7).unwrap();
    let _b = stat.add_modifier_with_order(Change::Times(10.0), 7).unwrap();
    let _c = stat.add_modifier_with_order(Change::Plus(2.0), 7).unwrap();
    assert_eq!(stat.value(), 22.0);

    let mut other = Stat::<Change, 3>::new(1.0);
    let _d = other.add_modifier_with_order(Change::Times(10.0), 7).unwrap();
    let _e = other.add_modifier_with_order(Change::Plus(1.0), 7).unwrap();
    let _f = other.add_modifier_with_order(Change::Plus(2.0), 7).unwrap();
    assert_eq!(other.value(), 13.0);
}

#[test]
fn equal_orders_keep_their_sequence_after_a_drop() {
    let mut stat = Stat::<Change, 3>::new(1.0);
    let a = stat.add_modifier_with_order(Change::Plus(1.0), 0).unwrap();
    let _b = stat.add_modifier_with_order(Change::Times(10.0), 7).unwrap();
    let _c = stat.add_modifier_with_order(Change::Plus(2.0), 7).unwrap();
    drop(a);
    let _d = stat.add_modifier_with_order(Change::Times(3.0), 7).unwrap();
    assert_eq!(stat.value(), 36.0);
}

#[test]
fn reading_twice_gives_the_same_value() {
    let mut stat = Stat::<Change, 3>::new(10.0);
    let _a = stat.add_modifier(Change::Times(2.0)).unwrap();
    let _b = stat.add_modifier(Change::Plus(5.0)).unwrap();
    let first = stat.value();
    let second = stat.value();
    let third = stat.value();
    assert_eq!(first, 30.0);
    assert_eq!(second, 30.0);
    assert_eq!(third, 30.0);
}

#[test]
fn default_order_comes_from_the_modifier() {
    let mut stat = Stat::<Change, 3>::new(10.0);
    let _a = stat.add_modifier(Change::Times(2.0)).unwrap();
    let _b = stat.add_modifier(Change::Plus(5.0)).unwrap();
    let _c = stat.add_modifier_with_order(Change::Plus(1.0), 30).unwrap();
    assert_eq!(stat.value(), 31.0);
}

#[test]
fn a_clone_of_the_handle_keeps_the_modifier() {
    let mut stat = Stat::<Change, 2>::new(10.0);
    let a = stat.add_modifier(Change::Plus(5.0)).unwrap();
    let shared = Rc::clone(&a);
    drop(a);
    assert_eq!(stat.value(), 15.0);
    assert_eq!(stat.liveness(), vec![true]);
    drop(shared);
    assert_eq!(stat.liveness(), vec![false]);
    assert_eq!(stat.value(), 10.0);
}

#[test]
fn a_new_base_value_shows_at_the_next_read() {
    let mut stat = Stat::<Change, 2>::new(10.0);
    let _a = stat.add_modifier(Change::Plus(5.0)).unwrap();
    assert_eq!(stat.value(), 15.0);
    stat.base_value = 1.0;
    assert_eq!(stat.value(), 6.0);
    stat.set_base_value(2.0);
    assert_eq!(stat.get_base_value(), 2.0);
    assert_eq!(stat.value(), 7.0);
}

#[test]
fn a_stat_without_room_refuses_every_add() {
    let mut stat = Stat::<Change, 0>::new(10.0);
    assert!(full_error(stat.add_modifier(Change::Plus(5.0))));
    assert!(full_error(stat.add_modifier_with_order(Change::Plus(5.0), 1)));
    assert_eq!(stat.value(), 10.0);
}

#[test]
fn the_error_can_be_copied_and_printed() {
    let mut stat = Stat::<Change, 0>::new(10.0);
    let error = stat.add_modifier(Change::Plus(5.0)).err().unwrap();
    let copy = error;
    assert_eq!(format!("{:?}", error), "ModifiersFullError");
    assert_eq!(format!("{:?}", copy.clone()), "ModifiersFullError");
}
