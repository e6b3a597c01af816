use timetabler_core::model::{Class, ClassId, Requirement, RequirementId, RoomId, SubjectId, TeacherId};
use timetabler_core::{Slot, Timetable, WeekSchedule};

#[test]
fn slot_roundtrip() {
    let s = WeekSchedule::new(5, 8, 4);
    assert_eq!(s.slot_count(), 40);
    let slot = s.slot_of(2, 5);
    assert_eq!(slot.0, 21);
    assert_eq!(s.day(slot), 2);
    assert_eq!(s.period(slot), 5);
    assert_eq!(s.describe_slot(slot), "周三第6节");
}

#[test]
fn double_pair_rules() {
    let s = WeekSchedule::new(5, 8, 4);
    // adjacent in the morning: legal
    assert!(s.is_double_pair(s.slot_of(0, 2), s.slot_of(0, 3)));
    // last morning period and first afternoon period: across lunch
    assert!(!s.is_double_pair(s.slot_of(0, 3), s.slot_of(0, 4)));
    // across days
    assert!(!s.is_double_pair(s.slot_of(0, 7), s.slot_of(1, 0)));
    // the same period
    assert!(!s.is_double_pair(s.slot_of(1, 5), s.slot_of(1, 5)));
}

#[test]
fn every_slot_roundtrips() {
    let s = WeekSchedule::new(6, 7, 3);
    for d in 0..6u8 {
        for p in 0..7u8 {
            let slot = s.slot_of(d, p);
            assert!((slot.0 as usize) < s.slot_count());
            assert_eq!(s.day(slot), d);
            assert_eq!(s.period(slot), p);
        }
    }
}

#[test]
fn double_pair_is_symmetric_and_blocks_are_split_by_lunch() {
    let s = WeekSchedule::new(5, 8, 4);
    for a in 0..40u32 {
        for b in 0..40u32 {
            assert_eq!(
                s.is_double_pair(Slot(a), Slot(b)),
                s.is_double_pair(Slot(b), Slot(a))
            );
        }
    }
    assert!(s.same_day(Slot(0), Slot(7)));
    assert!(!s.same_day(Slot(7), Slot(8)));
    assert!(s.same_block(Slot(4), Slot(7)));
    assert!(!s.same_block(Slot(3), Slot(4)));
    assert!(s.is_double_pair(Slot(6), Slot(5)));
}

#[test]
fn day_names_and_slot_texts() {
    let s = WeekSchedule::new(7, 8, 4);
    assert_eq!(s.day_name(0), "周一");
    assert_eq!(s.day_name(6), "周日");
    assert_eq!(s.day_name(7), "周?");
    assert_eq!(s.describe_slot(Slot(0)), "周一第1节");
    assert_eq!(s.describe_slot(Slot(55)), "周日第8节");
    // a slot past the week still has a day number, named "周?"
    assert_eq!(s.describe_slot(Slot(60)), "周?第5节");
}

#[test]
fn room_or_home_prefers_the_pinned_room() {
    let class = Class {
        id: ClassId(0),
        name: "甲班".to_string(),
        home_room: RoomId(3),
    };
    let mut r = Requirement {
        id: RequirementId(0),
        class: ClassId(0),
        subject: SubjectId(0),
        teacher: TeacherId(0),
        lessons_per_week: 1,
        double_period: false,
        room: None,
    };
    assert_eq!(r.room_or_home(&class), RoomId(3));
    r.room = Some(RoomId(9));
    assert_eq!(r.room_or_home(&class), RoomId(9));
}

#[test]
fn ids_index_and_empty_timetable() {
    assert_eq!(TeacherId(7).idx(), 7);
    assert_eq!(ClassId(3).idx(), 3);
    assert_eq!(SubjectId(2).idx(), 2);
    assert_eq!(RoomId(25).idx(), 25);
    assert_eq!(RequirementId(239).idx(), 239);
    assert_eq!(Timetable::default().lesson_count(), 0);
}
