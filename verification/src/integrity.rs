//! Referential integrity of the input ([`Problem`]) itself.
//!
//! Every cross reference inside a problem must hold before a timetable can be
//! checked against it: `validate` runs these checks first and, when any fails,
//! reports only those. They can also be run on their own right after loading.
//!
//! Checked: the class, subject, teacher and pinned room of each requirement,
//! each class's home room, the length of each teacher's unavailability bitmap,
//! that each requirement's id is its position, and the week's parameters.

use vstd::prelude::*;
use vstd::string::*;
use crate::model::{ClassId, Problem, Requirement, RequirementId, TeacherId};
use crate::text::{decimal_text, push_decimal};

verus! {

/// An integrity error of the input data (a reference out of range, a wrong shape).
#[allow(inconsistent_fields)]
#[derive(Clone, Copy, Debug, PartialEq, Eq, Structural)]
pub enum IntegrityError {
    /// The week's parameters are out of range (its fields are public, so
    /// `WeekSchedule::new` may have been bypassed).
    InvalidSchedule { days: u8, periods_per_day: u8, lunch_after_period: u8 },
    /// A requirement's id differs from its position (the validator looks
    /// requirements up by id).
    RequirementIdMismatch { position: u32, id: u32 },
    /// A requirement names a class that does not exist.
    RequirementClassOutOfRange { requirement: RequirementId, class: u32 },
    /// A requirement names a subject that does not exist.
    RequirementSubjectOutOfRange { requirement: RequirementId, subject: u32 },
    /// A requirement names a teacher that does not exist.
    RequirementTeacherOutOfRange { requirement: RequirementId, teacher: u32 },
    /// A requirement pins a room that does not exist.
    RequirementRoomOutOfRange { requirement: RequirementId, room: u32 },
    /// A class's home room does not exist.
    ClassHomeRoomOutOfRange { class: ClassId, room: u32 },
    /// A teacher's unavailability bitmap is not one bit per slot of the week.
    TeacherAvailabilityLenMismatch { teacher: TeacherId, expected: usize, actual: usize },
}

/// One error if `cond` holds, none otherwise.
pub open spec fn error_if(cond: bool, e: IntegrityError) -> Seq<IntegrityError> {
    if cond {
        seq![e]
    } else {
        Seq::empty()
    }
}

/// The errors of one teacher.
pub open spec fn teacher_error(p: Problem, t: int) -> Seq<IntegrityError> {
    let actual = p.teachers@[t].unavailable@.len();
    error_if(
        actual != p.schedule.num_slots(),
        IntegrityError::TeacherAvailabilityLenMismatch {
            teacher: TeacherId(t as u32),
            expected: p.schedule.num_slots() as usize,
            actual: actual as usize,
        },
    )
}

/// The errors of the first `n` teachers, in order.
pub open spec fn teacher_errors(p: Problem, n: nat) -> Seq<IntegrityError>
    decreases n,
{
    if n == 0 {
        Seq::empty()
    } else {
        teacher_errors(p, (n - 1) as nat) + teacher_error(p, n - 1)
    }
}

/// The errors of one class.
pub open spec fn class_error(p: Problem, c: int) -> Seq<IntegrityError> {
    let room = p.classes@[c].home_room;
    error_if(
        room.0 >= p.rooms@.len(),
        IntegrityError::ClassHomeRoomOutOfRange { class: ClassId(c as u32), room: room.0 },
    )
}

/// The errors of the first `n` classes, in order.
pub open spec fn class_errors(p: Problem, n: nat) -> Seq<IntegrityError>
    decreases n,
{
    if n == 0 {
        Seq::empty()
    } else {
        class_errors(p, (n - 1) as nat) + class_error(p, n - 1)
    }
}

/// Whether a requirement pins a room that does not exist.
pub open spec fn pinned_room_missing(p: Problem, r: Requirement) -> bool {
    match r.room {
        Some(room) => room.0 >= p.rooms@.len(),
        None => false,
    }
}

/// The errors of the requirement at position `i`, in the order they are checked.
pub open spec fn requirement_error(p: Problem, i: int) -> Seq<IntegrityError> {
    let r = p.requirements@[i];
    error_if(
        r.id.0 != i,
        IntegrityError::RequirementIdMismatch { position: i as u32, id: r.id.0 },
    ) + error_if(
        r.class.0 >= p.classes@.len(),
        IntegrityError::RequirementClassOutOfRange { requirement: r.id, class: r.class.0 },
    ) + error_if(
        r.subject.0 >= p.subjects@.len(),
        IntegrityError::RequirementSubjectOutOfRange { requirement: r.id, subject: r.subject.0 },
    ) + error_if(
        r.teacher.0 >= p.teachers@.len(),
        IntegrityError::RequirementTeacherOutOfRange { requirement: r.id, teacher: r.teacher.0 },
    ) + error_if(
        pinned_room_missing(p, r),
        IntegrityError::RequirementRoomOutOfRange {
            requirement: r.id,
            room: match r.room {
                Some(room) => room.0,
                None => 0,
            },
        },
    )
}

/// The errors of the first `n` requirements, in order.
pub open spec fn requirement_errors(p: Problem, n: nat) -> Seq<IntegrityError>
    decreases n,
{
    if n == 0 {
        Seq::empty()
    } else {
        requirement_errors(p, (n - 1) as nat) + requirement_error(p, n - 1)
    }
}

/// All integrity errors of a problem: the week alone when it is invalid,
/// otherwise those of the teachers, then the classes, then the requirements.
pub open spec fn integrity_errors(p: Problem) -> Seq<IntegrityError> {
    if !p.schedule.is_valid() {
        seq![
            IntegrityError::InvalidSchedule {
                days: p.schedule.days,
                periods_per_day: p.schedule.periods_per_day,
                lunch_after_period: p.schedule.lunch_after_period,
            },
        ]
    } else {
        teacher_errors(p, p.teachers@.len()) + class_errors(p, p.classes@.len())
            + requirement_errors(p, p.requirements@.len())
    }
}

impl Problem {
    /// Every cross reference of the problem holds.
    pub open spec fn is_well_formed(&self) -> bool {
        &&& self.schedule.is_valid()
        &&& forall|t: int|
            0 <= t < self.teachers@.len() ==> (#[trigger] self.teachers@[t]).unavailable@.len()
                == self.schedule.num_slots()
        &&& forall|c: int|
            0 <= c < self.classes@.len() ==> (#[trigger] self.classes@[c]).home_room.0
                < self.rooms@.len()
        &&& forall|i: int|
            0 <= i < self.requirements@.len() ==> {
                let r = #[trigger] self.requirements@[i];
                &&& r.id.0 == i
                &&& r.class.0 < self.classes@.len()
                &&& r.subject.0 < self.subjects@.len()
                &&& r.teacher.0 < self.teachers@.len()
                &&& !pinned_room_missing(*self, r)
            }
    }

    /// Appends the errors of the requirement at position `i`.
    fn push_requirement_errors(&self, i: usize, errors: &mut Vec<IntegrityError>)
        requires
            i < self.requirements@.len(),
        ensures
            final(errors)@ == old(errors)@ + requirement_error(*self, i as int),
    {
        let ghost before = errors@;
        let r = &self.requirements[i];
        if r.id.idx() != i {
            errors.push(IntegrityError::RequirementIdMismatch { position: i as u32, id: r.id.0 });
        }
        if r.class.idx() >= self.classes.len() {
            errors.push(
                IntegrityError::RequirementClassOutOfRange { requirement: r.id, class: r.class.0 },
            );
        }
        if r.subject.idx() >= self.subjects.len() {
            errors.push(
                IntegrityError::RequirementSubjectOutOfRange {
                    requirement: r.id,
                    subject: r.subject.0,
                },
            );
        }
        if r.teacher.idx() >= self.teachers.len() {
            errors.push(
                IntegrityError::RequirementTeacherOutOfRange {
                    requirement: r.id,
                    teacher: r.teacher.0,
                },
            );
        }
        match r.room {
            Some(room) => {
                if room.idx() >= self.rooms.len() {
                    errors.push(
                        IntegrityError::RequirementRoomOutOfRange {
                            requirement: r.id,
                            room: room.0,
                        },
                    );
                }
            },
            None => {},
        }
        proof {
            assert(errors@ =~= before + requirement_error(*self, i as int));
        }
    }

    /// Checks the problem's own referential integrity and returns every problem
    /// found (an empty vector means clean). Never panics.
    pub fn check_integrity(&self) -> (errors: Vec<IntegrityError>)
        ensures
            errors@ == integrity_errors(*self),
    {
        let mut errors: Vec<IntegrityError> = Vec::new();
        let s = &self.schedule;
        if s.days == 0 || s.days > 7 || s.periods_per_day == 0 || s.lunch_after_period
            > s.periods_per_day {
            errors.push(
                IntegrityError::InvalidSchedule {
                    days: s.days,
                    periods_per_day: s.periods_per_day,
                    lunch_after_period: s.lunch_after_period,
                },
            );
            return errors;
        }
        let nslots = self.slot_count();
        let mut i: usize = 0;
        while i < self.teachers.len()
            invariant
                i <= self.teachers@.len(),
                nslots == self.schedule.num_slots(),
                errors@ == teacher_errors(*self, i as nat),
            decreases self.teachers@.len() - i,
        {
            let t = &self.teachers[i];
            if t.unavailable.len() != nslots {
                errors.push(
                    IntegrityError::TeacherAvailabilityLenMismatch {
                        teacher: TeacherId(i as u32),
                        expected: nslots,
                        actual: t.unavailable.len(),
                    },
                );
            }
            i = i + 1;
        }
        let ghost after_teachers = errors@;
        let mut i: usize = 0;
        while i < self.classes.len()
            invariant
                i <= self.classes@.len(),
                after_teachers == teacher_errors(*self, self.teachers@.len()),
                errors@ == after_teachers + class_errors(*self, i as nat),
            decreases self.classes@.len() - i,
        {
            let c = &self.classes[i];
            if c.home_room.idx() >= self.rooms.len() {
                errors.push(
                    IntegrityError::ClassHomeRoomOutOfRange {
                        class: ClassId(i as u32),
                        room: c.home_room.0,
                    },
                );
            }
            proof {
                assert(errors@ =~= after_teachers + class_errors(*self, (i + 1) as nat));
            }
            i = i + 1;
        }
        let ghost after_classes = errors@;
        let mut i: usize = 0;
        while i < self.requirements.len()
            invariant
                i <= self.requirements@.len(),
                after_classes == teacher_errors(*self, self.teachers@.len()) + class_errors(
                    *self,
                    self.classes@.len(),
                ),
                errors@ == after_classes + requirement_errors(*self, i as nat),
            decreases self.requirements@.len() - i,
        {
            let ghost before = errors@;
            self.push_requirement_errors(i, &mut errors);
            proof {
                assert(errors@ =~= before + requirement_error(*self, i as int));
                assert(errors@ =~= after_classes + requirement_errors(*self, (i + 1) as nat));
            }
            i = i + 1;
        }
        proof {
            assert(errors@ =~= integrity_errors(*self));
        }
        errors
    }
}

/// The readable text of an integrity error.
pub open spec fn integrity_error_text(e: IntegrityError, p: Problem) -> Seq<char> {
    match e {
        IntegrityError::InvalidSchedule { days, periods_per_day, lunch_after_period } =>
            "节次表参数非法：每周 "@ + decimal_text(days as nat) + " 天、每天 "@ + decimal_text(
            periods_per_day as nat,
        ) + " 节、午休位于第 "@ + decimal_text(lunch_after_period as nat) + " 节后"@,
        IntegrityError::RequirementIdMismatch { position, id } => "需求 id 与位置不符：第 "@
            + decimal_text(position as nat) + " 个需求的 id 为 #"@ + decimal_text(id as nat)
            + "（校验器按下标寻址，二者必须一致）"@,
        IntegrityError::RequirementClassOutOfRange { requirement, class } => "需求#"@
            + decimal_text(requirement.0 as nat) + " 引用了不存在的班级 #"@ + decimal_text(
            class as nat,
        ) + "（共 "@ + decimal_text(p.classes@.len()) + " 个班）"@,
        IntegrityError::RequirementSubjectOutOfRange { requirement, subject } => "需求#"@
            + decimal_text(requirement.0 as nat) + " 引用了不存在的科目 #"@ + decimal_text(
            subject as nat,
        ) + "（共 "@ + decimal_text(p.subjects@.len()) + " 门）"@,
        IntegrityError::RequirementTeacherOutOfRange { requirement, teacher } => "需求#"@
            + decimal_text(requirement.0 as nat) + " 引用了不存在的教师 #"@ + decimal_text(
            teacher as nat,
        ) + "（共 "@ + decimal_text(p.teachers@.len()) + " 名）"@,
        IntegrityError::RequirementRoomOutOfRange { requirement, room } => "需求#"@
            + decimal_text(requirement.0 as nat) + " 指定了不存在的教室 #"@ + decimal_text(
            room as nat,
        ) + "（共 "@ + decimal_text(p.rooms@.len()) + " 间）"@,
        IntegrityError::ClassHomeRoomOutOfRange { class, room } => p.class_name_text(class)
            + " 的本班教室指向不存在的教室 #"@ + decimal_text(room as nat) + "（共 "@
            + decimal_text(p.rooms@.len()) + " 间）"@,
        IntegrityError::TeacherAvailabilityLenMismatch { teacher, expected, actual } =>
            p.teacher_name_text(teacher) + " 的不可用位图长度为 "@ + decimal_text(actual as nat)
            + "，应等于一周槽数 "@ + decimal_text(expected as nat),
    }
}

impl IntegrityError {
    /// A readable description of the error.
    pub fn describe(&self, p: &Problem) -> (s: String)
        ensures
            s@ == integrity_error_text(*self, *p),
    {
        let mut s = String::new();
        match self {
            IntegrityError::InvalidSchedule { days, periods_per_day, lunch_after_period } => {
                s.append("节次表参数非法：每周 ");
                push_decimal(&mut s, *days as u64);
                s.append(" 天、每天 ");
                push_decimal(&mut s, *periods_per_day as u64);
                s.append(" 节、午休位于第 ");
                push_decimal(&mut s, *lunch_after_period as u64);
                s.append(" 节后");
            },
            IntegrityError::RequirementIdMismatch { position, id } => {
                s.append("需求 id 与位置不符：第 ");
                push_decimal(&mut s, *position as u64);
                s.append(" 个需求的 id 为 #");
                push_decimal(&mut s, *id as u64);
                s.append("（校验器按下标寻址，二者必须一致）");
            },
            IntegrityError::RequirementClassOutOfRange { requirement, class } => {
                s.append("需求#");
                push_decimal(&mut s, requirement.0 as u64);
                s.append(" 引用了不存在的班级 #");
                push_decimal(&mut s, *class as u64);
                s.append("（共 ");
                push_decimal(&mut s, p.classes.len() as u64);
                s.append(" 个班）");
            },
            IntegrityError::RequirementSubjectOutOfRange { requirement, subject } => {
                s.append("需求#");
                push_decimal(&mut s, requirement.0 as u64);
                s.append(" 引用了不存在的科目 #");
                push_decimal(&mut s, *subject as u64);
                s.append("（共 ");
                push_decimal(&mut s, p.subjects.len() as u64);
                s.append(" 门）");
            },
            IntegrityError::RequirementTeacherOutOfRange { requirement, teacher } => {
                s.append("需求#");
                push_decimal(&mut s, requirement.0 as u64);
                s.append(" 引用了不存在的教师 #");
                push_decimal(&mut s, *teacher as u64);
                s.append("（共 ");
                push_decimal(&mut s, p.teachers.len() as u64);
                s.append(" 名）");
            },
            IntegrityError::RequirementRoomOutOfRange { requirement, room } => {
                s.append("需求#");
                push_decimal(&mut s, requirement.0 as u64);
                s.append(" 指定了不存在的教室 #");
                push_decimal(&mut s, *room as u64);
                s.append("（共 ");
                push_decimal(&mut s, p.rooms.len() as u64);
                s.append(" 间）");
            },
            IntegrityError::ClassHomeRoomOutOfRange { class, room } => {
                s.append(p.class_name(*class));
                s.append(" 的本班教室指向不存在的教室 #");
                push_decimal(&mut s, *room as u64);
                s.append("（共 ");
                push_decimal(&mut s, p.rooms.len() as u64);
                s.append(" 间）");
            },
            IntegrityError::TeacherAvailabilityLenMismatch { teacher, expected, actual } => {
                s.append(p.teacher_name(*teacher));
                s.append(" 的不可用位图长度为 ");
                push_decimal(&mut s, *actual as u64);
                s.append("，应等于一周槽数 ");
                push_decimal(&mut s, *expected as u64);
            },
        }
        s
    }
}

proof fn lemma_teacher_errors_empty(p: Problem, n: nat)
    requires
        n <= p.teachers@.len(),
    ensures
        teacher_errors(p, n).len() == 0 <==> forall|t: int|
            0 <= t < n ==> (#[trigger] p.teachers@[t]).unavailable@.len() == p.schedule.num_slots(),
    decreases n,
{
    if n > 0 {
        lemma_teacher_errors_empty(p, (n - 1) as nat);
    }
}

proof fn lemma_class_errors_empty(p: Problem, n: nat)
    requires
        n <= p.classes@.len(),
    ensures
        class_errors(p, n).len() == 0 <==> forall|c: int|
            0 <= c < n ==> (#[trigger] p.classes@[c]).home_room.0 < p.rooms@.len(),
    decreases n,
{
    if n > 0 {
        lemma_class_errors_empty(p, (n - 1) as nat);
    }
}

proof fn lemma_requirement_errors_empty(p: Problem, n: nat)
    requires
        n <= p.requirements@.len(),
    ensures
        requirement_errors(p, n).len() == 0 <==> forall|i: int|
            0 <= i < n ==> {
                let r = #[trigger] p.requirements@[i];
                &&& r.id.0 == i
                &&& r.class.0 < p.classes@.len()
                &&& r.subject.0 < p.subjects@.len()
                &&& r.teacher.0 < p.teachers@.len()
                &&& !pinned_room_missing(p, r)
            },
    decreases n,
{
    if n > 0 {
        lemma_requirement_errors_empty(p, (n - 1) as nat);
    }
}

/// The length-mismatch error of teacher `t`: the week's slot count expected,
/// the teacher's bitmap length found.
pub open spec fn length_mismatch(p: Problem, t: int) -> IntegrityError {
    IntegrityError::TeacherAvailabilityLenMismatch {
        teacher: TeacherId(t as u32),
        expected: p.schedule.num_slots() as usize,
        actual: p.teachers@[t].unavailable@.len() as usize,
    }
}

/// Teacher `t`'s bitmap is not one bit per slot of the week.
pub open spec fn bitmap_len_wrong(p: Problem, t: int) -> bool {
    p.teachers@[t].unavailable@.len() != p.schedule.num_slots()
}

proof fn lemma_teacher_errors_mismatches(p: Problem, n: nat)
    requires
        n <= p.teachers@.len(),
    ensures
        forall|t: int|
            0 <= t < n && bitmap_len_wrong(p, t) ==> #[trigger] teacher_errors(p, n).contains(
                length_mismatch(p, t),
            ),
        forall|k: int|
            0 <= k < teacher_errors(p, n).len() ==> exists|t: int|
                0 <= t < n && bitmap_len_wrong(p, t) && #[trigger] teacher_errors(p, n)[k]
                    == length_mismatch(p, t),
        forall|i: int, j: int|
            0 <= i < j < teacher_errors(p, n).len() ==> exists|ti: int, tj: int|
                0 <= ti < tj < n && #[trigger] teacher_errors(p, n)[i] == length_mismatch(p, ti)
                    && #[trigger] teacher_errors(p, n)[j] == length_mismatch(p, tj),
    decreases n,
{
    if n > 0 {
        let m = (n - 1) as nat;
        lemma_teacher_errors_mismatches(p, m);
        let pre = teacher_errors(p, m);
        let all = teacher_errors(p, n);
        assert(all == pre + teacher_error(p, m as int));
        if bitmap_len_wrong(p, m as int) {
            assert(all == pre.push(length_mismatch(p, m as int)));
            assert(all[pre.len() as int] == length_mismatch(p, m as int));
        } else {
            assert(all =~= pre);
        }
        assert forall|t: int| 0 <= t < n && bitmap_len_wrong(p, t) implies #[trigger] all.contains(
            length_mismatch(p, t),
        ) by {
            if t < m {
                assert(pre.contains(length_mismatch(p, t)));
                let k = choose|k: int| 0 <= k < pre.len() && pre[k] == length_mismatch(p, t);
                assert(all[k] == pre[k]);
            } else {
                assert(all[pre.len() as int] == length_mismatch(p, m as int));
            }
        }
        assert forall|k: int| 0 <= k < all.len() implies exists|t: int|
            0 <= t < n && bitmap_len_wrong(p, t) && #[trigger] all[k] == length_mismatch(p, t) by {
            if k < pre.len() {
                assert(all[k] == pre[k]);
                let t = choose|t: int| 0 <= t < m && bitmap_len_wrong(p, t) && pre[k] == length_mismatch(p, t);
            } else {
                assert(all[k] == length_mismatch(p, m as int));
            }
        }
        assert forall|i: int, j: int| 0 <= i < j < all.len() implies exists|ti: int, tj: int|
            0 <= ti < tj < n && #[trigger] all[i] == length_mismatch(p, ti) && #[trigger] all[j]
                == length_mismatch(p, tj) by {
            assert(all[i] == pre[i]);
            if j < pre.len() {
                assert(all[j] == pre[j]);
                let (ti, tj) = choose|ti: int, tj: int|
                    0 <= ti < tj < m && pre[i] == length_mismatch(p, ti) && pre[j] == length_mismatch(p, tj);
            } else {
                assert(all[j] == length_mismatch(p, m as int));
                let ti = choose|ti: int| 0 <= ti < m && bitmap_len_wrong(p, ti) && pre[i] == length_mismatch(p, ti);
                assert(all[i] == length_mismatch(p, ti));
            }
        }
    }
}

proof fn lemma_class_errors_kind(p: Problem, n: nat)
    ensures
        forall|k: int|
            0 <= k < class_errors(p, n).len() ==> !(#[trigger] class_errors(p, n)[k] is TeacherAvailabilityLenMismatch),
    decreases n,
{
    if n > 0 {
        let m = (n - 1) as nat;
        lemma_class_errors_kind(p, m);
        let pre = class_errors(p, m);
        let all = class_errors(p, n);
        assert forall|k: int| 0 <= k < all.len() implies !(#[trigger] all[k] is TeacherAvailabilityLenMismatch) by {
            if k < pre.len() {
                assert(all[k] == pre[k]);
            }
        }
    }
}

proof fn lemma_requirement_errors_kind(p: Problem, n: nat)
    ensures
        forall|k: int|
            0 <= k < requirement_errors(p, n).len() ==> !(#[trigger] requirement_errors(p, n)[k] is TeacherAvailabilityLenMismatch),
    decreases n,
{
    if n > 0 {
        let m = (n - 1) as nat;
        lemma_requirement_errors_kind(p, m);
        let pre = requirement_errors(p, m);
        let all = requirement_errors(p, n);
        let e = requirement_error(p, m as int);
        assert forall|k: int| 0 <= k < e.len() implies !(#[trigger] e[k] is TeacherAvailabilityLenMismatch) by {
        }
        assert forall|k: int| 0 <= k < all.len() implies !(#[trigger] all[k] is TeacherAvailabilityLenMismatch) by {
            if k < pre.len() {
                assert(all[k] == pre[k]);
            } else {
                assert(all[k] == e[k - pre.len()]);
            }
        }
    }
}

/// On a valid week, the integrity check reports each teacher whose bitmap is
/// not one bit per slot, with its own length-mismatch error (the expected and
/// the found length), and reports no other length mismatch; the mismatches
/// come in teacher order, one per such teacher (as many as there are such
/// teachers, the teachers' numbers being distinct).
pub proof fn lemma_teacher_mismatches_reported(p: Problem)
    requires
        p.schedule.is_valid(),
    ensures
        forall|t: int|
            0 <= t < p.teachers@.len() && bitmap_len_wrong(p, t) ==> #[trigger] integrity_errors(
                p,
            ).contains(length_mismatch(p, t)),
        forall|k: int|
            0 <= k < integrity_errors(p).len()
                && #[trigger] integrity_errors(p)[k] is TeacherAvailabilityLenMismatch ==> exists|t: int|
                0 <= t < p.teachers@.len() && bitmap_len_wrong(p, t) && integrity_errors(p)[k]
                    == length_mismatch(p, t),
        forall|i: int, j: int|
            0 <= i < j < integrity_errors(p).len()
                && #[trigger] integrity_errors(p)[i] is TeacherAvailabilityLenMismatch
                && #[trigger] integrity_errors(p)[j] is TeacherAvailabilityLenMismatch ==> exists|
                ti: int,
                tj: int,
            |
                0 <= ti < tj < p.teachers@.len() && integrity_errors(p)[i] == length_mismatch(p, ti)
                    && integrity_errors(p)[j] == length_mismatch(p, tj),
{
    let n = p.teachers@.len();
    lemma_teacher_errors_mismatches(p, n);
    lemma_class_errors_kind(p, p.classes@.len());
    lemma_requirement_errors_kind(p, p.requirements@.len());
    let te = teacher_errors(p, n);
    let ce = class_errors(p, p.classes@.len());
    let re = requirement_errors(p, p.requirements@.len());
    let all = integrity_errors(p);
    assert(all == te + ce + re);
    assert forall|t: int| 0 <= t < n && bitmap_len_wrong(p, t) implies #[trigger] all.contains(
        length_mismatch(p, t),
    ) by {
        assert(te.contains(length_mismatch(p, t)));
        let k = choose|k: int| 0 <= k < te.len() && te[k] == length_mismatch(p, t);
        assert(all[k] == te[k]);
    }
    assert forall|k: int| 0 <= k < all.len() && #[trigger] all[k] is TeacherAvailabilityLenMismatch
        implies exists|t: int| 0 <= t < n && bitmap_len_wrong(p, t) && all[k] == length_mismatch(p, t) by {
        if k < te.len() {
            assert(all[k] == te[k]);
            let t = choose|t: int| 0 <= t < n && bitmap_len_wrong(p, t) && te[k] == length_mismatch(p, t);
        } else if k < te.len() + ce.len() {
            assert(all[k] == ce[k - te.len()]);
        } else {
            assert(all[k] == re[k - te.len() - ce.len()]);
        }
    }
    assert forall|i: int, j: int|
        0 <= i < j < all.len() && #[trigger] all[i] is TeacherAvailabilityLenMismatch
            && #[trigger] all[j] is TeacherAvailabilityLenMismatch implies exists|ti: int, tj: int|
        0 <= ti < tj < n && all[i] == length_mismatch(p, ti) && all[j] == length_mismatch(p, tj) by {
        if j < te.len() {
            assert(all[i] == te[i] && all[j] == te[j]);
            let (ti, tj) = choose|ti: int, tj: int|
                0 <= ti < tj < n && te[i] == length_mismatch(p, ti) && te[j] == length_mismatch(p, tj);
        } else if j < te.len() + ce.len() {
            assert(all[j] == ce[j - te.len()]);
        } else {
            assert(all[j] == re[j - te.len() - ce.len()]);
        }
    }
}

/// A problem passes the integrity check exactly when every one of its cross
/// references holds.
pub proof fn lemma_clean_iff_well_formed(p: Problem)
    ensures
        integrity_errors(p).len() == 0 <==> p.is_well_formed(),
{
    lemma_teacher_errors_empty(p, p.teachers@.len());
    lemma_class_errors_empty(p, p.classes@.len());
    lemma_requirement_errors_empty(p, p.requirements@.len());
}

} // verus!
