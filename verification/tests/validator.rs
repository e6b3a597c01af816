//! Validator tests: a small hand-built problem with exact expectations for each
//! kind of violation, and the 20-class, 60-teacher fixture.

use timetabler_core::bitmap::Bitmap;
use timetabler_core::testgen;
use timetabler_core::{
    validate, Class, ClassId, IntegrityError, Lesson, Problem, Requirement, RequirementId, Room,
    RoomId, Slot, Subject, SubjectId, Teacher, TeacherId, Timetable, Violation, ViolationKind,
    WeekSchedule,
};

// ---------------------------------------------------------------------------
// Small problem: 2 days × 4 periods (lunch after 2), 2 classes, 3 teachers,
// 2 subjects, 2 rooms.
// ---------------------------------------------------------------------------

fn t_id(i: u32) -> TeacherId {
    TeacherId(i)
}

fn tiny_problem() -> Problem {
    let schedule = WeekSchedule::new(2, 4, 2);
    let nslots = schedule.slot_count();

    let subjects = ["语文", "数学"]
        .iter()
        .enumerate()
        .map(|(i, n)| Subject {
            id: SubjectId(i as u32),
            name: n.to_string(),
        })
        .collect();

    let mut unavail_t0 = Bitmap::new(nslots);
    unavail_t0.set(3); // teacher 0 is unavailable on Monday's first afternoon period (slot 3)
    let teachers = vec![
        Teacher {
            id: t_id(0),
            name: "教师甲".into(),
            unavailable: unavail_t0,
        },
        Teacher {
            id: t_id(1),
            name: "教师乙".into(),
            unavailable: Bitmap::new(nslots),
        },
        Teacher {
            id: t_id(2),
            name: "教师丙".into(),
            unavailable: Bitmap::new(nslots),
        },
    ];

    let rooms = vec![
        Room {
            id: RoomId(0),
            name: "教室一".into(),
        },
        Room {
            id: RoomId(1),
            name: "教室二".into(),
        },
    ];

    let classes = vec![
        Class {
            id: ClassId(0),
            name: "甲班".into(),
            home_room: RoomId(0),
        },
        Class {
            id: ClassId(1),
            name: "乙班".into(),
            home_room: RoomId(1),
        },
    ];

    let mk_req = |id: u32, class: u32, subject: u32, teacher: u32, n: u8, double: bool| {
        Requirement {
            id: RequirementId(id),
            class: ClassId(class),
            subject: SubjectId(subject),
            teacher: t_id(teacher),
            lessons_per_week: n,
            double_period: double,
            room: None,
        }
    };
    let requirements = vec![
        mk_req(0, 0, 0, 0, 2, true),  // class 0, subject 0, teacher 0, one double
        mk_req(1, 0, 1, 2, 1, false), // class 0, subject 1, teacher 2, 1 lesson
        mk_req(2, 1, 0, 2, 2, false), // class 1, subject 0, teacher 2, 2 lessons
        mk_req(3, 1, 1, 1, 1, false), // class 1, subject 1, teacher 1, 1 lesson
        mk_req(4, 0, 0, 1, 1, false), // class 0, subject 0, teacher 1, 1 lesson
    ];

    Problem {
        schedule,
        subjects,
        teachers,
        classes,
        rooms,
        requirements,
    }
}

fn lesson(req: u32, slot: u32, room: u32) -> Lesson {
    Lesson {
        requirement: RequirementId(req),
        slot: Slot(slot),
        room: RoomId(room),
    }
}

/// A timetable that satisfies every hard constraint.
fn valid_timetable() -> Timetable {
    Timetable {
        lessons: vec![
            lesson(0, 0, 0), // the double: Monday, periods 1-2
            lesson(0, 1, 0),
            lesson(1, 4, 0), // Tuesday, period 1
            lesson(2, 1, 1), // Monday period 2 and Tuesday period 2
            lesson(2, 5, 1),
            lesson(3, 6, 1), // Tuesday, period 3
            lesson(4, 7, 0), // Tuesday, period 4
        ],
    }
}

fn kinds_of(violations: &[Violation]) -> Vec<&ViolationKind> {
    violations.iter().map(|v| &v.kind).collect()
}

#[test]
fn valid_timetable_passes() {
    let p = tiny_problem();
    let tt = valid_timetable();
    assert_eq!(validate(&p, &tt), Vec::<Violation>::new());
}

#[test]
fn detects_teacher_conflict() {
    let p = tiny_problem();
    let mut tt = valid_timetable();
    // Move requirement 1 (teacher 2) from slot 4 to 5, where teacher 2 already teaches.
    tt.lessons[2].slot = Slot(5);
    let v = validate(&p, &tt);
    assert_eq!(
        kinds_of(&v),
        vec![&ViolationKind::TeacherConflict {
            teacher: t_id(2)
        }]
    );
    assert_eq!(v[0].slot, Some(Slot(5)));
}

#[test]
fn detects_class_conflict() {
    let p = tiny_problem();
    let mut tt = valid_timetable();
    // Move requirement 1 to slot 0, where class 0 already has its double (same room too).
    tt.lessons[2].slot = Slot(0);
    let v = validate(&p, &tt);
    let kinds = kinds_of(&v);
    assert!(kinds.contains(&&ViolationKind::ClassConflict { class: ClassId(0) }));
}

#[test]
fn detects_room_conflict() {
    let p = tiny_problem();
    let mut tt = valid_timetable();
    // Move requirement 1 to slot 6 and room 1, which requirement 3 occupies.
    // Room 1 is not the class's room either: both are reported.
    tt.lessons[2].slot = Slot(6);
    tt.lessons[2].room = RoomId(1);
    let v = validate(&p, &tt);
    assert_eq!(
        kinds_of(&v),
        vec![
            &ViolationKind::RoomMismatch {
                requirement: RequirementId(1),
                expected: RoomId(0),
                actual: RoomId(1),
            },
            &ViolationKind::RoomConflict { room: RoomId(1) },
        ]
    );
}

#[test]
fn detects_teacher_unavailable() {
    let p = tiny_problem();
    let mut tt = valid_timetable();
    // Move the double to slots 2 and 3; teacher 0 is unavailable in slot 3.
    tt.lessons[0].slot = Slot(2);
    tt.lessons[1].slot = Slot(3);
    let v = validate(&p, &tt);
    assert_eq!(
        kinds_of(&v),
        vec![&ViolationKind::TeacherUnavailable {
            teacher: t_id(0)
        }]
    );
    assert_eq!(v[0].slot, Some(Slot(3)));
}

#[test]
fn detects_broken_double_period_not_adjacent() {
    let p = tiny_problem();
    let mut tt = valid_timetable();
    // Split the double into slots 0 and 2, which are not adjacent.
    tt.lessons[1].slot = Slot(2);
    let v = validate(&p, &tt);
    let broken: Vec<_> = v
        .iter()
        .filter(|x| matches!(x.kind, ViolationKind::BrokenDoublePeriod { .. }))
        .collect();
    assert_eq!(broken.len(), 2); // neither lesson finds a partner
    assert_eq!(
        broken[0].kind,
        ViolationKind::BrokenDoublePeriod {
            requirement: RequirementId(0)
        }
    );
}

#[test]
fn detects_broken_double_period_crossing_lunch() {
    let p = tiny_problem();
    let mut tt = valid_timetable();
    // The double in slots 1 and 2: adjacent, but across lunch.
    tt.lessons[0].slot = Slot(1);
    tt.lessons[1].slot = Slot(2);
    let v = validate(&p, &tt);
    let broken: Vec<_> = v
        .iter()
        .filter(|x| matches!(x.kind, ViolationKind::BrokenDoublePeriod { .. }))
        .collect();
    assert_eq!(broken.len(), 2);
}

#[test]
fn detects_subject_daily_limit() {
    let p = tiny_problem();
    let mut tt = valid_timetable();
    // Move requirement 4 from slot 7 to 2: class 0 gets 3 lessons of subject 0 on Monday.
    tt.lessons[6].slot = Slot(2);
    let v = validate(&p, &tt);
    assert_eq!(
        kinds_of(&v),
        vec![&ViolationKind::SubjectDailyLimit {
            class: ClassId(0),
            subject: SubjectId(0),
            count: 3,
        }]
    );
    assert_eq!(v[0].slot, Some(Slot(0))); // the day is marked by its first slot
}

#[test]
fn detects_requirement_coverage() {
    let p = tiny_problem();
    let mut tt = valid_timetable();
    // Drop the only lesson of requirement 3.
    tt.lessons.remove(5);
    let v = validate(&p, &tt);
    assert_eq!(
        kinds_of(&v),
        vec![&ViolationKind::RequirementCoverage {
            requirement: RequirementId(3),
            expected: 1,
            actual: 0,
        }]
    );
}

#[test]
fn detects_slot_out_of_range() {
    let p = tiny_problem();
    let mut tt = valid_timetable();
    tt.lessons[5].slot = Slot(99);
    let v = validate(&p, &tt);
    let kinds = kinds_of(&v);
    assert!(kinds.contains(&&ViolationKind::SlotOutOfRange { slot: 99 }));
    // A lesson outside the week does not count towards coverage.
    assert!(kinds.contains(&&ViolationKind::RequirementCoverage {
        requirement: RequirementId(3),
        expected: 1,
        actual: 0,
    }));
}

#[test]
fn violation_describe_mentions_who_when_what() {
    let p = tiny_problem();
    let mut tt = valid_timetable();
    tt.lessons[2].slot = Slot(5);
    let v = validate(&p, &tt);
    let msg = v[0].describe(&p);
    assert!(msg.contains("教师丙"), "应说明是谁：{msg}");
    assert!(msg.contains("周二第2节"), "应说明时间槽：{msg}");
    assert!(msg.contains("教师冲突"), "应说明违反了哪条约束：{msg}");
}

// ---------------------------------------------------------------------------
// The fixture: 20 classes, 60 teachers.
// ---------------------------------------------------------------------------

#[test]
fn generated_fixture_is_valid_and_deterministic() {
    let (p, tt) = testgen::generate(42);
    assert_eq!(p.classes.len(), 20);
    assert_eq!(p.teachers.len(), 60);
    assert_eq!(tt.lesson_count(), 20 * 35);
    assert_eq!(validate(&p, &tt), Vec::<Violation>::new());

    // The same seed gives the same result.
    let (p2, tt2) = testgen::generate(42);
    assert_eq!(tt, tt2);
    assert_eq!(validate(&p2, &tt2), Vec::<Violation>::new());
}

#[test]
fn corrupted_fixture_is_caught() {
    let (p, tt) = testgen::generate(7);
    let mut bad = tt.clone();
    // Move one lesson of a class onto another lesson of the same class: a class clash.
    let first = tt.lessons[0];
    let req0 = p.requirement(first.requirement).unwrap();
    let same_class = tt
        .lessons
        .iter()
        .position(|l| {
            l.slot != first.slot
                && p.requirement(l.requirement).unwrap().class == req0.class
        })
        .expect("夹具中每班有多节课");
    bad.lessons[same_class].slot = first.slot;
    let v = validate(&p, &bad);
    assert!(
        v.iter().any(|x| x.kind
            == ViolationKind::ClassConflict {
                class: req0.class
            }),
        "应报出班级冲突：{v:?}"
    );
}

// ---------------------------------------------------------------------------
// Integrity of the problem: validate does not panic on any input.
// ---------------------------------------------------------------------------

#[test]
fn valid_problems_have_clean_integrity() {
    assert_eq!(tiny_problem().check_integrity(), Vec::new());
    let (p, _) = testgen::generate(42);
    assert_eq!(p.check_integrity(), Vec::new());
}

#[test]
fn validate_reports_all_broken_requirement_refs() {
    let mut p = tiny_problem();
    p.requirements[0].teacher = TeacherId(7); // 3 teachers
    p.requirements[1].class = ClassId(9); // 2 classes
    p.requirements[2].subject = SubjectId(8); // 2 subjects
    p.requirements[3].room = Some(RoomId(42)); // 2 rooms
    let v = validate(&p, &valid_timetable());
    // Only integrity errors, one per broken reference.
    let errors: Vec<&IntegrityError> = v
        .iter()
        .map(|x| match &x.kind {
            ViolationKind::InvalidProblem(e) => e,
            other => panic!("不应报课表问题：{other:?}"),
        })
        .collect();
    assert_eq!(
        errors,
        vec![
            &IntegrityError::RequirementTeacherOutOfRange {
                requirement: RequirementId(0),
                teacher: 7,
            },
            &IntegrityError::RequirementClassOutOfRange {
                requirement: RequirementId(1),
                class: 9,
            },
            &IntegrityError::RequirementSubjectOutOfRange {
                requirement: RequirementId(2),
                subject: 8,
            },
            &IntegrityError::RequirementRoomOutOfRange {
                requirement: RequirementId(3),
                room: 42,
            },
        ]
    );
}

#[test]
fn validate_handles_teacher_ref_beyond_teacher_list() {
    // One teacher only, and a requirement naming teacher 7.
    let mut p = tiny_problem();
    p.teachers.truncate(1);
    p.requirements[0].teacher = TeacherId(7);
    let v = validate(&p, &valid_timetable());
    assert!(v.iter().any(|x| matches!(
        x.kind,
        ViolationKind::InvalidProblem(IntegrityError::RequirementTeacherOutOfRange {
            teacher: 7,
            ..
        })
    )));
}

#[test]
fn integrity_catches_bad_home_room_and_availability_len() {
    let mut p = tiny_problem();
    p.classes[0].home_room = RoomId(99);
    p.teachers[1].unavailable = Bitmap::new(3); // the week has 8 slots
    let errors = p.check_integrity();
    assert!(errors.contains(&IntegrityError::ClassHomeRoomOutOfRange {
        class: ClassId(0),
        room: 99,
    }));
    assert!(errors.contains(&IntegrityError::TeacherAvailabilityLenMismatch {
        teacher: TeacherId(1),
        expected: 8,
        actual: 3,
    }));
    // validate reports integrity errors only.
    let v = validate(&p, &valid_timetable());
    assert!(v
        .iter()
        .all(|x| matches!(x.kind, ViolationKind::InvalidProblem(_))));
}

#[test]
fn integrity_catches_requirement_id_mismatch_and_bad_schedule() {
    let mut p = tiny_problem();
    p.requirements[2].id = RequirementId(7);
    assert_eq!(
        p.check_integrity(),
        vec![IntegrityError::RequirementIdMismatch {
            position: 2,
            id: 7,
        }]
    );

    // Set the field directly, bypassing WeekSchedule::new: 0 periods a day.
    let mut p2 = tiny_problem();
    p2.schedule.periods_per_day = 0;
    let v = validate(&p2, &valid_timetable());
    assert_eq!(v.len(), 1);
    assert!(matches!(
        v[0].kind,
        ViolationKind::InvalidProblem(IntegrityError::InvalidSchedule { .. })
    ));
}

// ---------------------------------------------------------------------------
// Hard constraint 6: the prescribed room.
// ---------------------------------------------------------------------------

#[test]
fn detects_room_mismatch() {
    let mut p = tiny_problem();
    p.requirements[1].room = Some(RoomId(1)); // requirement 1 pins room 1
    let tt = valid_timetable(); // but its lesson is in room 0
    let v = validate(&p, &tt);
    assert_eq!(
        kinds_of(&v),
        vec![&ViolationKind::RoomMismatch {
            requirement: RequirementId(1),
            expected: RoomId(1),
            actual: RoomId(0),
        }]
    );
    let msg = v[0].describe(&p);
    assert!(msg.contains("教室不符"), "{msg}");
    assert!(msg.contains("教室二"), "{msg}");

    // With the pinned room used, nothing is reported.
    p.requirements[1].room = Some(RoomId(0));
    assert_eq!(validate(&p, &tt), Vec::<Violation>::new());
}

#[test]
fn detects_home_room_mismatch() {
    // No pinned room: the class's own room is required.
    let p = tiny_problem();
    let mut tt = valid_timetable();
    // Move requirement 1 from room 0 to room 1, free at that time.
    tt.lessons[2].room = RoomId(1);
    let v = validate(&p, &tt);
    assert_eq!(
        kinds_of(&v),
        vec![&ViolationKind::RoomMismatch {
            requirement: RequirementId(1),
            expected: RoomId(0),
            actual: RoomId(1),
        }]
    );
}

#[test]
fn fixture_home_room_binding_is_enforced() {
    // Move a lesson of class 0's politics from its own room to a free room.
    let (p, tt) = testgen::generate(42);
    let pol_subject = p.subjects.iter().find(|s| s.name == "政治").unwrap().id;
    let req = p
        .requirements
        .iter()
        .find(|r| r.class == ClassId(0) && r.subject == pol_subject)
        .expect("夹具中高一(1)班有政治需求");
    assert_eq!(req.room, None, "普通课不应指定教室");
    let home = p.classes[0].home_room;
    // Pick a room free in that slot, so that no room clash is added.
    let idx = tt
        .lessons
        .iter()
        .position(|l| l.requirement == req.id)
        .unwrap();
    let slot = tt.lessons[idx].slot;
    let free_room = (0..p.rooms.len())
        .map(|i| RoomId(i as u32))
        .find(|&r| r != home && tt.lessons.iter().all(|l| l.slot != slot || l.room != r))
        .expect("该槽应存在空教室");
    let mut bad = tt.clone();
    bad.lessons[idx].room = free_room;
    let v = validate(&p, &bad);
    assert_eq!(v.len(), 1, "应只有一条教室不符：{v:?}");
    assert_eq!(
        v[0].kind,
        ViolationKind::RoomMismatch {
            requirement: req.id,
            expected: home,
            actual: free_room,
        }
    );
}

#[test]
fn fixture_room_pin_is_enforced() {
    // Move class 0's physics lab from the lab to the class's own room.
    let (p, tt) = testgen::generate(42);
    let lab_subject = p.subjects.iter().find(|s| s.name == "物理实验").unwrap().id;
    let req = p
        .requirements
        .iter()
        .find(|r| r.class == ClassId(0) && r.subject == lab_subject)
        .expect("夹具中高一(1)班有物理实验需求");
    let pinned = req.room.expect("实验课应指定教室");
    let home = p.classes[0].home_room;
    let mut bad = tt.clone();
    let mut moved = 0;
    for l in &mut bad.lessons {
        if l.requirement == req.id {
            l.room = home;
            moved += 1;
        }
    }
    assert_eq!(moved, 2); // both lessons of the double move
    let v = validate(&p, &bad);
    assert_eq!(v.len(), 2, "应只有两条教室不符：{v:?}");
    assert!(v.iter().all(|x| x.kind
        == ViolationKind::RoomMismatch {
            requirement: req.id,
            expected: pinned,
            actual: home,
        }));
}
