use timetabler_core::bitmap::Bitmap;
use timetabler_core::testgen;
use timetabler_core::{
    validate, Class, ClassId, IntegrityError, Lesson, Problem, Requirement, RequirementId, Room,
    RoomId, Slot, Subject, SubjectId, Teacher, TeacherId, Timetable, Violation, ViolationKind,
    WeekSchedule,
};

/// One class, two teachers, one subject, two rooms; a week of 2 days × 6
/// periods with lunch after 3.
fn one_class_problem(double: bool, lessons: u8) -> Problem {
    Problem {
        schedule: WeekSchedule::new(2, 6, 3),
        subjects: vec![Subject { id: SubjectId(0), name: "物理".to_string() }],
        teachers: vec![
            Teacher { id: TeacherId(0), name: "教师甲".to_string(), unavailable: Bitmap::new(12) },
            Teacher { id: TeacherId(1), name: "教师乙".to_string(), unavailable: Bitmap::new(12) },
        ],
        classes: vec![Class { id: ClassId(0), name: "甲班".to_string(), home_room: RoomId(0) }],
        rooms: vec![
            Room { id: RoomId(0), name: "教室一".to_string() },
            Room { id: RoomId(1), name: "实验室".to_string() },
        ],
        requirements: vec![Requirement {
            id: RequirementId(0),
            class: ClassId(0),
            subject: SubjectId(0),
            teacher: TeacherId(0),
            lessons_per_week: lessons,
            double_period: double,
            room: None,
        }],
    }
}

fn lessons_at(slots: &[u32]) -> Timetable {
    Timetable {
        lessons: slots
            .iter()
            .map(|&s| Lesson { requirement: RequirementId(0), slot: Slot(s), room: RoomId(0) })
            .collect(),
    }
}

#[test]
fn doubles_pair_off_in_ascending_order() {
    let p = one_class_problem(true, 4);
    // Two doubles on day one, given out of order: (0,1) and (4,5).
    let tt = lessons_at(&[4, 0, 5, 1]);
    let v = validate(&p, &tt);
    // Four lessons on one day also break the daily limit, but no double is broken.
    assert!(v.iter().all(|x| !matches!(x.kind, ViolationKind::BrokenDoublePeriod { .. })));
}

#[test]
fn three_in_a_row_leaves_the_last_alone() {
    let p = one_class_problem(true, 3);
    let tt = lessons_at(&[6, 7, 8]);
    let v = validate(&p, &tt);
    let broken: Vec<&Violation> = v
        .iter()
        .filter(|x| matches!(x.kind, ViolationKind::BrokenDoublePeriod { .. }))
        .collect();
    assert_eq!(broken.len(), 1);
    assert_eq!(broken[0].slot, Some(Slot(8)));
}

#[test]
fn conflict_is_reported_once_per_slot() {
    let p = one_class_problem(false, 3);
    let tt = lessons_at(&[2, 2, 2]);
    let v = validate(&p, &tt);
    let teacher: Vec<&Violation> = v
        .iter()
        .filter(|x| matches!(x.kind, ViolationKind::TeacherConflict { .. }))
        .collect();
    assert_eq!(teacher.len(), 1);
    assert_eq!(teacher[0].slot, Some(Slot(2)));
    assert_eq!(
        v.iter()
            .filter(|x| matches!(x.kind, ViolationKind::ClassConflict { .. }))
            .count(),
        1
    );
    assert_eq!(
        v.iter()
            .filter(|x| matches!(x.kind, ViolationKind::RoomConflict { .. }))
            .count(),
        1
    );
}

#[test]
fn malformed_lessons_are_reported_and_not_counted() {
    let p = one_class_problem(false, 1);
    let tt = Timetable {
        lessons: vec![
            Lesson { requirement: RequirementId(5), slot: Slot(0), room: RoomId(0) },
            Lesson { requirement: RequirementId(0), slot: Slot(3), room: RoomId(9) },
        ],
    };
    let v = validate(&p, &tt);
    assert_eq!(
        v,
        vec![
            Violation { kind: ViolationKind::UnknownRequirement { id: 5 }, slot: None },
            Violation { kind: ViolationKind::UnknownRoom { id: 9 }, slot: Some(Slot(3)) },
            Violation {
                kind: ViolationKind::RequirementCoverage {
                    requirement: RequirementId(0),
                    expected: 1,
                    actual: 0,
                },
                slot: None,
            },
        ]
    );
}

#[test]
fn daily_limit_marks_the_first_slot_of_the_day() {
    let p = one_class_problem(false, 3);
    let tt = lessons_at(&[6, 8, 10]);
    let v = validate(&p, &tt);
    assert_eq!(
        v,
        vec![Violation {
            kind: ViolationKind::SubjectDailyLimit {
                class: ClassId(0),
                subject: SubjectId(0),
                count: 3,
            },
            slot: Some(Slot(6)),
        }]
    );
}

#[test]
fn pinned_room_and_unavailable_teacher() {
    let mut p = one_class_problem(false, 1);
    p.requirements[0].room = Some(RoomId(1));
    p.teachers[0].unavailable.set(4);
    let tt = lessons_at(&[4]);
    let v = validate(&p, &tt);
    assert_eq!(
        v,
        vec![
            Violation {
                kind: ViolationKind::RoomMismatch {
                    requirement: RequirementId(0),
                    expected: RoomId(1),
                    actual: RoomId(0),
                },
                slot: Some(Slot(4)),
            },
            Violation {
                kind: ViolationKind::TeacherUnavailable { teacher: TeacherId(0) },
                slot: Some(Slot(4)),
            },
        ]
    );
}

#[test]
fn invalid_schedules_are_reported_alone() {
    for (days, periods, lunch) in [(0u8, 6u8, 3u8), (8, 6, 3), (2, 0, 0), (2, 6, 7)] {
        let mut p = one_class_problem(false, 1);
        p.schedule.days = days;
        p.schedule.periods_per_day = periods;
        p.schedule.lunch_after_period = lunch;
        p.requirements[0].teacher = TeacherId(9);
        let expected = IntegrityError::InvalidSchedule {
            days,
            periods_per_day: periods,
            lunch_after_period: lunch,
        };
        assert_eq!(p.check_integrity(), vec![expected.clone()]);
        assert_eq!(
            validate(&p, &lessons_at(&[0])),
            vec![Violation { kind: ViolationKind::InvalidProblem(expected), slot: None }]
        );
    }
}

#[test]
fn integrity_errors_come_in_order() {
    let mut p = one_class_problem(false, 1);
    p.teachers[1].unavailable = Bitmap::new(5);
    p.classes[0].home_room = RoomId(2);
    p.requirements[0].id = RequirementId(1);
    p.requirements[0].class = ClassId(1);
    p.requirements[0].subject = SubjectId(1);
    p.requirements[0].teacher = TeacherId(2);
    p.requirements[0].room = Some(RoomId(2));
    assert_eq!(
        p.check_integrity(),
        vec![
            IntegrityError::TeacherAvailabilityLenMismatch {
                teacher: TeacherId(1),
                expected: 12,
                actual: 5,
            },
            IntegrityError::ClassHomeRoomOutOfRange { class: ClassId(0), room: 2 },
            IntegrityError::RequirementIdMismatch { position: 0, id: 1 },
            IntegrityError::RequirementClassOutOfRange {
                requirement: RequirementId(1),
                class: 1,
            },
            IntegrityError::RequirementSubjectOutOfRange {
                requirement: RequirementId(1),
                subject: 1,
            },
            IntegrityError::RequirementTeacherOutOfRange {
                requirement: RequirementId(1),
                teacher: 2,
            },
            IntegrityError::RequirementRoomOutOfRange {
                requirement: RequirementId(1),
                room: 2,
            },
        ]
    );
}

#[test]
fn a_valid_single_lesson_timetable() {
    let p = one_class_problem(false, 2);
    assert_eq!(p.check_integrity(), Vec::new());
    assert_eq!(validate(&p, &lessons_at(&[0, 7])), Vec::<Violation>::new());
}

#[test]
fn fixture_has_700_lessons_for_other_seeds() {
    for seed in [0u64, 1, 99] {
        let (p, tt) = testgen::generate(seed);
        assert_eq!(tt.lesson_count(), 700);
        assert_eq!(p.requirements.len(), 240);
        assert_eq!(p.rooms.len(), 26);
        assert_eq!(p.subjects.len(), 12);
        assert_eq!(validate(&p, &tt), Vec::<Violation>::new());
    }
}

#[test]
fn fixture_names() {
    let (p, _) = testgen::generate(3);
    assert_eq!(p.teachers[0].name, "教师01");
    assert_eq!(p.teachers[59].name, "教师60");
    assert_eq!(p.classes[0].name, "高一(1)班");
    assert_eq!(p.classes[19].name, "高二(10)班");
    assert_eq!(p.rooms[25].name, "操场2");
    assert_eq!(p.subjects[10].name, "物理实验");
}
