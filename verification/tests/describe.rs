use timetabler_core::bitmap::Bitmap;
use timetabler_core::{
    Class, ClassId, IntegrityError, Problem, Requirement, RequirementId, Room, RoomId, Slot,
    Subject, SubjectId, Teacher, TeacherId, Violation, ViolationKind, WeekSchedule,
};

fn sample_problem() -> Problem {
    let schedule = WeekSchedule::new(2, 4, 2);
    Problem {
        schedule,
        subjects: vec![
            Subject { id: SubjectId(0), name: "语文".to_string() },
            Subject { id: SubjectId(1), name: "数学".to_string() },
        ],
        teachers: vec![
            Teacher { id: TeacherId(0), name: "教师甲".to_string(), unavailable: Bitmap::new(8) },
            Teacher { id: TeacherId(1), name: "教师乙".to_string(), unavailable: Bitmap::new(8) },
        ],
        classes: vec![Class { id: ClassId(0), name: "甲班".to_string(), home_room: RoomId(0) }],
        rooms: vec![
            Room { id: RoomId(0), name: "教室一".to_string() },
            Room { id: RoomId(1), name: "教室二".to_string() },
        ],
        requirements: vec![Requirement {
            id: RequirementId(0),
            class: ClassId(0),
            subject: SubjectId(1),
            teacher: TeacherId(1),
            lessons_per_week: 2,
            double_period: true,
            room: None,
        }],
    }
}

fn at(kind: ViolationKind, slot: Option<u32>) -> Violation {
    Violation { kind, slot: slot.map(Slot) }
}

#[test]
fn names_of_known_and_unknown_ids() {
    let p = sample_problem();
    assert_eq!(p.teacher_name(TeacherId(1)), "教师乙");
    assert_eq!(p.teacher_name(TeacherId(5)), "未知教师");
    assert_eq!(p.class_name(ClassId(0)), "甲班");
    assert_eq!(p.class_name(ClassId(1)), "未知班级");
    assert_eq!(p.subject_name(SubjectId(1)), "数学");
    assert_eq!(p.subject_name(SubjectId(2)), "未知科目");
    assert_eq!(p.room_name(RoomId(1)), "教室二");
    assert_eq!(p.room_name(RoomId(2)), "未知教室");
    assert_eq!(p.requirement_desc(RequirementId(0)), "甲班的数学（教师乙授课）");
    assert_eq!(p.requirement_desc(RequirementId(12)), "需求#12");
    assert!(p.requirement(RequirementId(0)).is_some());
    assert!(p.requirement(RequirementId(1)).is_none());
    assert_eq!(p.slot_count(), 8);
}

#[test]
fn describe_each_violation_kind() {
    let p = sample_problem();
    let cases = vec![
        (
            at(ViolationKind::TeacherConflict { teacher: TeacherId(0) }, Some(5)),
            "教师冲突：教师甲 在周二第2节被同时安排了多节课",
        ),
        (
            at(ViolationKind::ClassConflict { class: ClassId(0) }, Some(0)),
            "班级冲突：甲班 在周一第1节有多节课同时进行",
        ),
        (
            at(ViolationKind::RoomConflict { room: RoomId(1) }, Some(3)),
            "教室冲突：教室二 在周一第4节被多节课同时使用",
        ),
        (
            at(ViolationKind::TeacherUnavailable { teacher: TeacherId(1) }, Some(7)),
            "教师不可用：教师乙 在周二第4节有课，但该时段已被标记为不可用",
        ),
        (
            at(ViolationKind::BrokenDoublePeriod { requirement: RequirementId(0) }, Some(2)),
            "连堂未成对：甲班的数学（教师乙授课） 在周一第3节的课节没有与之相邻成对的同需求课节（连堂须相邻且不跨中午）",
        ),
        (
            at(
                ViolationKind::SubjectDailyLimit {
                    class: ClassId(0),
                    subject: SubjectId(0),
                    count: 3,
                },
                Some(4),
            ),
            "科目日超限：甲班 的 语文 在周二第1节当天共排了 3 节，超过 2 节上限",
        ),
        (
            at(
                ViolationKind::RequirementCoverage {
                    requirement: RequirementId(0),
                    expected: 2,
                    actual: 10,
                },
                None,
            ),
            "课时不符：甲班的数学（教师乙授课） 应排 2 节，实际排了 10 节",
        ),
        (
            at(
                ViolationKind::RoomMismatch {
                    requirement: RequirementId(0),
                    expected: RoomId(0),
                    actual: RoomId(1),
                },
                Some(1),
            ),
            "教室不符：甲班的数学（教师乙授课） 在周一第2节应在 教室一 上课，实际排在 教室二",
        ),
        (
            at(ViolationKind::SlotOutOfRange { slot: 99 }, None),
            "数据非法：时间槽 99 超出每周总槽数 8",
        ),
        (
            at(ViolationKind::UnknownRequirement { id: 7 }, None),
            "数据非法：课表引用了不存在的需求 #7",
        ),
        (
            at(ViolationKind::UnknownRoom { id: 40 }, Some(0)),
            "数据非法：课表引用了不存在的教室 #40",
        ),
        (
            at(
                ViolationKind::InvalidProblem(IntegrityError::RequirementIdMismatch {
                    position: 2,
                    id: 7,
                }),
                None,
            ),
            "需求 id 与位置不符：第 2 个需求的 id 为 #7（校验器按下标寻址，二者必须一致）",
        ),
    ];
    for (v, text) in cases {
        assert_eq!(v.describe(&p), text);
    }
}

#[test]
fn describe_each_integrity_error() {
    let p = sample_problem();
    let cases = vec![
        (
            IntegrityError::InvalidSchedule { days: 0, periods_per_day: 8, lunch_after_period: 4 },
            "节次表参数非法：每周 0 天、每天 8 节、午休位于第 4 节后",
        ),
        (
            IntegrityError::RequirementIdMismatch { position: 0, id: 3 },
            "需求 id 与位置不符：第 0 个需求的 id 为 #3（校验器按下标寻址，二者必须一致）",
        ),
        (
            IntegrityError::RequirementClassOutOfRange { requirement: RequirementId(0), class: 9 },
            "需求#0 引用了不存在的班级 #9（共 1 个班）",
        ),
        (
            IntegrityError::RequirementSubjectOutOfRange {
                requirement: RequirementId(0),
                subject: 8,
            },
            "需求#0 引用了不存在的科目 #8（共 2 门）",
        ),
        (
            IntegrityError::RequirementTeacherOutOfRange {
                requirement: RequirementId(0),
                teacher: 7,
            },
            "需求#0 引用了不存在的教师 #7（共 2 名）",
        ),
        (
            IntegrityError::RequirementRoomOutOfRange { requirement: RequirementId(0), room: 42 },
            "需求#0 指定了不存在的教室 #42（共 2 间）",
        ),
        (
            IntegrityError::ClassHomeRoomOutOfRange { class: ClassId(0), room: 99 },
            "甲班 的本班教室指向不存在的教室 #99（共 2 间）",
        ),
        (
            IntegrityError::TeacherAvailabilityLenMismatch {
                teacher: TeacherId(1),
                expected: 8,
                actual: 3,
            },
            "教师乙 的不可用位图长度为 3，应等于一周槽数 8",
        ),
    ];
    for (e, text) in cases {
        assert_eq!(e.describe(&p), text);
    }
}
