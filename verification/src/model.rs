//! Data model of a timetabling problem.
//!
//! A time slot ([`Slot`]) is the linear number of a period within the week:
//! `slot = day * periods_per_day + period`. With 5 days of 8 periods there are
//! 40 slots, and occupancy is kept in bitmaps of that length.

use vstd::prelude::*;
use vstd::string::*;
use crate::bitmap::Bitmap;
use crate::text::{decimal_text, push_decimal};

verus! {

/// Typed teacher id: the teacher's index in `Problem::teachers`.
#[derive(Clone, Copy, PartialEq, Eq, Structural, Hash, PartialOrd, Ord, Debug)]
pub struct TeacherId(pub u32);

/// Typed class id: the class's index in `Problem::classes`.
#[derive(Clone, Copy, PartialEq, Eq, Structural, Hash, PartialOrd, Ord, Debug)]
pub struct ClassId(pub u32);

/// Typed subject id: the subject's index in `Problem::subjects`.
#[derive(Clone, Copy, PartialEq, Eq, Structural, Hash, PartialOrd, Ord, Debug)]
pub struct SubjectId(pub u32);

/// Typed room id: the room's index in `Problem::rooms`.
#[derive(Clone, Copy, PartialEq, Eq, Structural, Hash, PartialOrd, Ord, Debug)]
pub struct RoomId(pub u32);

/// Typed requirement id: the requirement's index in `Problem::requirements`.
#[derive(Clone, Copy, PartialEq, Eq, Structural, Hash, PartialOrd, Ord, Debug)]
pub struct RequirementId(pub u32);

impl TeacherId {
    pub fn idx(self) -> (i: usize)
        ensures
            i == self.0,
    {
        self.0 as usize
    }
}

impl ClassId {
    pub fn idx(self) -> (i: usize)
        ensures
            i == self.0,
    {
        self.0 as usize
    }
}

impl SubjectId {
    pub fn idx(self) -> (i: usize)
        ensures
            i == self.0,
    {
        self.0 as usize
    }
}

impl RoomId {
    pub fn idx(self) -> (i: usize)
        ensures
            i == self.0,
    {
        self.0 as usize
    }
}

impl RequirementId {
    pub fn idx(self) -> (i: usize)
        ensures
            i == self.0,
    {
        self.0 as usize
    }
}

/// A time slot: the linear number of a period within the week.
#[derive(Clone, Copy, PartialEq, Eq, Structural, Hash, PartialOrd, Ord, Debug)]
pub struct Slot(pub u32);

/// The week's shape: days, periods per day, and where lunch falls
/// (a double period may not straddle it).
#[derive(Clone, Copy, Debug)]
pub struct WeekSchedule {
    /// Teaching days per week, usually 5.
    pub days: u8,
    /// Periods per day, usually 8.
    pub periods_per_day: u8,
    /// Morning periods: a period below this value is in the morning, otherwise
    /// in the afternoon. Both periods of a double lie on the same side.
    pub lunch_after_period: u8,
}

/// The name of a weekday (Monday first), or "周?" past Sunday.
pub open spec fn day_name_text(day: u8) -> Seq<char> {
    if day == 0 {
        "周一"@
    } else if day == 1 {
        "周二"@
    } else if day == 2 {
        "周三"@
    } else if day == 3 {
        "周四"@
    } else if day == 4 {
        "周五"@
    } else if day == 5 {
        "周六"@
    } else if day == 6 {
        "周日"@
    } else {
        "周?"@
    }
}

impl WeekSchedule {
    /// The parameters that `WeekSchedule::new` accepts.
    pub open spec fn is_valid(&self) -> bool {
        &&& 1 <= self.days <= 7
        &&& self.periods_per_day >= 1
        &&& self.lunch_after_period <= self.periods_per_day
    }

    /// Total number of slots in the week.
    pub open spec fn num_slots(&self) -> nat {
        (self.days * self.periods_per_day) as nat
    }

    /// The day (from 0) of a slot.
    pub open spec fn day_of(&self, slot: Slot) -> u8 {
        (slot.0 / (self.periods_per_day as u32)) as u8
    }

    /// The period (from 0) of a slot within its day.
    pub open spec fn period_of(&self, slot: Slot) -> u8 {
        (slot.0 % (self.periods_per_day as u32)) as u8
    }

    /// Same day, and both in the morning or both in the afternoon.
    pub open spec fn in_same_block(&self, a: Slot, b: Slot) -> bool {
        &&& self.day_of(a) == self.day_of(b)
        &&& (self.period_of(a) < self.lunch_after_period) == (self.period_of(b)
            < self.lunch_after_period)
    }

    /// Adjacent periods in the same block: a legal double period.
    pub open spec fn forms_double_pair(&self, a: Slot, b: Slot) -> bool {
        &&& self.in_same_block(a, b)
        &&& (self.period_of(a) - self.period_of(b) == 1 || self.period_of(b) - self.period_of(a)
            == 1)
    }

    /// The text "<weekday>第<period + 1>节" for a slot.
    pub open spec fn slot_text(&self, slot: Slot) -> Seq<char> {
        day_name_text(self.day_of(slot)) + "第"@ + decimal_text((self.period_of(slot) + 1) as nat)
            + "节"@
    }

    /// A week of `days` days, `periods_per_day` periods, lunch after
    /// `lunch_after_period` periods.
    pub fn new(days: u8, periods_per_day: u8, lunch_after_period: u8) -> (s: WeekSchedule)
        requires
            1 <= days <= 7,
            periods_per_day >= 1,
            lunch_after_period <= periods_per_day,
        ensures
            s.days == days,
            s.periods_per_day == periods_per_day,
            s.lunch_after_period == lunch_after_period,
            s.is_valid(),
    {
        WeekSchedule { days, periods_per_day, lunch_after_period }
    }

    /// Total number of slots in the week.
    pub fn slot_count(&self) -> (n: usize)
        ensures
            n == self.num_slots(),
    {
        proof {
            assert(self.days * self.periods_per_day <= 255 * 255) by (nonlinear_arith)
                requires
                    self.days <= 255,
                    self.periods_per_day <= 255,
            ;
        }
        self.days as usize * self.periods_per_day as usize
    }

    /// The slot of period `period` on day `day`.
    pub fn slot_of(&self, day: u8, period: u8) -> (s: Slot)
        requires
            day < self.days,
            period < self.periods_per_day,
        ensures
            s.0 == day * self.periods_per_day + period,
    {
        proof {
            assert(day * self.periods_per_day <= 255 * 255) by (nonlinear_arith)
                requires
                    day <= 255,
                    self.periods_per_day <= 255,
            ;
        }
        Slot(day as u32 * self.periods_per_day as u32 + period as u32)
    }

    /// The day (from 0) of a slot.
    pub fn day(&self, slot: Slot) -> (d: u8)
        requires
            self.periods_per_day >= 1,
        ensures
            d == self.day_of(slot),
    {
        (slot.0 / self.periods_per_day as u32) as u8
    }

    /// The period (from 0) of a slot within its day.
    pub fn period(&self, slot: Slot) -> (p: u8)
        requires
            self.periods_per_day >= 1,
        ensures
            p == self.period_of(slot),
    {
        (slot.0 % self.periods_per_day as u32) as u8
    }

    /// Whether two slots fall on the same day.
    pub fn same_day(&self, a: Slot, b: Slot) -> (r: bool)
        requires
            self.periods_per_day >= 1,
        ensures
            r == (self.day_of(a) == self.day_of(b)),
    {
        self.day(a) == self.day(b)
    }

    /// Whether two slots fall on the same day and the same side of lunch.
    pub fn same_block(&self, a: Slot, b: Slot) -> (r: bool)
        requires
            self.periods_per_day >= 1,
        ensures
            r == self.in_same_block(a, b),
    {
        self.same_day(a, b) && (self.period(a) < self.lunch_after_period) == (self.period(b)
            < self.lunch_after_period)
    }

    /// Whether two slots form a legal double period: adjacent periods, same day,
    /// not across lunch.
    pub fn is_double_pair(&self, a: Slot, b: Slot) -> (r: bool)
        requires
            self.periods_per_day >= 1,
        ensures
            r == self.forms_double_pair(a, b),
    {
        if !self.same_block(a, b) {
            return false;
        }
        let pa = self.period(a);
        let pb = self.period(b);
        let diff = if pa > pb {
            pa - pb
        } else {
            pb - pa
        };
        diff == 1
    }

    /// The Chinese name of a weekday (周一 … 周日), or "周?" past Sunday.
    pub fn day_name(&self, day: u8) -> (s: &'static str)
        ensures
            s@ == day_name_text(day),
    {
        if day == 0 {
            "周一"
        } else if day == 1 {
            "周二"
        } else if day == 2 {
            "周三"
        } else if day == 3 {
            "周四"
        } else if day == 4 {
            "周五"
        } else if day == 5 {
            "周六"
        } else if day == 6 {
            "周日"
        } else {
            "周?"
        }
    }

    /// A readable slot, such as 「周三第5节」.
    pub fn describe_slot(&self, slot: Slot) -> (s: String)
        requires
            self.periods_per_day >= 1,
        ensures
            s@ == self.slot_text(slot),
    {
        let mut s = String::new();
        s.append(self.day_name(self.day(slot)));
        s.append("第");
        push_decimal(&mut s, self.period(slot) as u64 + 1);
        s.append("节");
        s
    }
}

#[derive(Clone, Debug)]
pub struct Subject {
    pub id: SubjectId,
    pub name: String,
}

#[derive(Clone, Debug)]
pub struct Teacher {
    pub id: TeacherId,
    pub name: String,
    /// Unavailable slots (one bit per slot of the week): a set bit means the
    /// teacher cannot teach then.
    pub unavailable: Bitmap,
}

#[derive(Clone, Debug)]
pub struct Class {
    pub id: ClassId,
    pub name: String,
    /// The class's own room, used when a requirement names none.
    pub home_room: RoomId,
}

#[derive(Clone, Debug)]
pub struct Room {
    pub id: RoomId,
    pub name: String,
}

/// A weekly requirement: a class is taught a subject by a teacher, so many
/// lessons a week.
#[derive(Clone, Debug)]
pub struct Requirement {
    pub id: RequirementId,
    pub class: ClassId,
    pub subject: SubjectId,
    pub teacher: TeacherId,
    /// Lessons per week.
    pub lessons_per_week: u8,
    /// Whether lessons come in adjacent pairs that do not straddle lunch.
    pub double_period: bool,
    /// A pinned room (a lab, the sports field); `None` means the class's own
    /// room. Both are hard: every lesson must take place in the room that
    /// [`Requirement::room_or_home`] names.
    pub room: Option<RoomId>,
}

impl Requirement {
    /// The room the requirement's lessons must use, given its class.
    pub open spec fn room_for(&self, class: Class) -> RoomId {
        match self.room {
            Some(r) => r,
            None => class.home_room,
        }
    }

    /// The room the requirement's lessons must use.
    pub fn room_or_home(&self, class: &Class) -> (r: RoomId)
        ensures
            r == self.room_for(*class),
    {
        match self.room {
            Some(r) => r,
            None => class.home_room,
        }
    }
}

/// The whole input of a timetabling problem.
#[derive(Clone, Debug)]
pub struct Problem {
    pub schedule: WeekSchedule,
    pub subjects: Vec<Subject>,
    pub teachers: Vec<Teacher>,
    pub classes: Vec<Class>,
    pub rooms: Vec<Room>,
    pub requirements: Vec<Requirement>,
}

impl Problem {
    /// A teacher's name, or 「未知教师」 for an id out of range.
    pub open spec fn teacher_name_text(&self, id: TeacherId) -> Seq<char> {
        if id.0 < self.teachers@.len() {
            self.teachers@[id.0 as int].name@
        } else {
            "未知教师"@
        }
    }

    /// A class's name, or 「未知班级」 for an id out of range.
    pub open spec fn class_name_text(&self, id: ClassId) -> Seq<char> {
        if id.0 < self.classes@.len() {
            self.classes@[id.0 as int].name@
        } else {
            "未知班级"@
        }
    }

    /// A subject's name, or 「未知科目」 for an id out of range.
    pub open spec fn subject_name_text(&self, id: SubjectId) -> Seq<char> {
        if id.0 < self.subjects@.len() {
            self.subjects@[id.0 as int].name@
        } else {
            "未知科目"@
        }
    }

    /// A room's name, or 「未知教室」 for an id out of range.
    pub open spec fn room_name_text(&self, id: RoomId) -> Seq<char> {
        if id.0 < self.rooms@.len() {
            self.rooms@[id.0 as int].name@
        } else {
            "未知教室"@
        }
    }

    /// 「<class>的<subject>（<teacher>授课）」, or 「需求#<id>」 for an unknown id.
    pub open spec fn requirement_text(&self, id: RequirementId) -> Seq<char> {
        if id.0 < self.requirements@.len() {
            let r = self.requirements@[id.0 as int];
            self.class_name_text(r.class) + "的"@ + self.subject_name_text(r.subject) + "（"@
                + self.teacher_name_text(r.teacher) + "授课）"@
        } else {
            "需求#"@ + decimal_text(id.0 as nat)
        }
    }

    /// Total number of slots in the week.
    pub fn slot_count(&self) -> (n: usize)
        ensures
            n == self.schedule.num_slots(),
    {
        self.schedule.slot_count()
    }

    /// The requirement with this id, if there is one.
    pub fn requirement(&self, id: RequirementId) -> (r: Option<&Requirement>)
        ensures
            r == (if id.0 < self.requirements@.len() {
                Some(&self.requirements@[id.0 as int])
            } else {
                None
            }),
    {
        let i = id.idx();
        if i < self.requirements.len() {
            Some(&self.requirements[i])
        } else {
            None
        }
    }

    pub fn teacher_name(&self, id: TeacherId) -> (s: &str)
        ensures
            s@ == self.teacher_name_text(id),
    {
        let i = id.idx();
        if i < self.teachers.len() {
            self.teachers[i].name.as_str()
        } else {
            "未知教师"
        }
    }

    pub fn class_name(&self, id: ClassId) -> (s: &str)
        ensures
            s@ == self.class_name_text(id),
    {
        let i = id.idx();
        if i < self.classes.len() {
            self.classes[i].name.as_str()
        } else {
            "未知班级"
        }
    }

    pub fn subject_name(&self, id: SubjectId) -> (s: &str)
        ensures
            s@ == self.subject_name_text(id),
    {
        let i = id.idx();
        if i < self.subjects.len() {
            self.subjects[i].name.as_str()
        } else {
            "未知科目"
        }
    }

    pub fn room_name(&self, id: RoomId) -> (s: &str)
        ensures
            s@ == self.room_name_text(id),
    {
        let i = id.idx();
        if i < self.rooms.len() {
            self.rooms[i].name.as_str()
        } else {
            "未知教室"
        }
    }

    /// A readable requirement, such as 「高一(1)班的物理（教师05授课）」.
    pub fn requirement_desc(&self, id: RequirementId) -> (s: String)
        ensures
            s@ == self.requirement_text(id),
    {
        let mut s = String::new();
        match self.requirement(id) {
            Some(r) => {
                s.append(self.class_name(r.class));
                s.append("的");
                s.append(self.subject_name(r.subject));
                s.append("（");
                s.append(self.teacher_name(r.teacher));
                s.append("授课）");
            },
            None => {
                s.append("需求#");
                push_decimal(&mut s, id.0 as u64);
            },
        }
        s
    }
}

/// One lesson: one meeting of a requirement, placed in a slot and a room.
#[derive(Clone, Copy, Debug, PartialEq, Eq, Structural)]
pub struct Lesson {
    pub requirement: RequirementId,
    pub slot: Slot,
    pub room: RoomId,
}

/// A complete timetable.
#[derive(Clone, Debug, Default, PartialEq, Eq)]
pub struct Timetable {
    pub lessons: Vec<Lesson>,
}

impl Timetable {
    pub fn lesson_count(&self) -> (n: usize)
        ensures
            n == self.lessons@.len(),
    {
        self.lessons.len()
    }
}

/// Laws of the slot arithmetic.
///
/// The slot of (day, period) gives back that day and that period, and lies
/// below the week's slot count.
pub proof fn lemma_slot_roundtrip(s: WeekSchedule, day: u8, period: u8)
    requires
        day < s.days,
        period < s.periods_per_day,
    ensures
        ({
            let slot = Slot((day * s.periods_per_day + period) as u32);
            &&& s.day_of(slot) == day
            &&& s.period_of(slot) == period
            &&& slot.0 < s.num_slots()
        }),
{
    let p = s.periods_per_day as int;
    let v = day * p + period;
    assert(v < 255 * 256) by (nonlinear_arith)
        requires
            day < 255,
            p <= 255,
            period < p,
            v == day * p + period,
    ;
    assert(v / p == day && v % p == period) by (nonlinear_arith)
        requires
            0 <= period < p,
            0 <= day,
            v == day * p + period,
    ;
    assert(v < s.days * p) by (nonlinear_arith)
        requires
            day < s.days,
            period < p,
            v == day * p + period,
    ;
}

/// Two slots of the week form a legal double period exactly when they are
/// consecutive slots (numbers one apart) of the same day, on the same side of
/// lunch. In particular two slots of a day with one period between them never
/// form a double.
pub proof fn lemma_double_pair_slots(s: WeekSchedule, a: Slot, b: Slot)
    requires
        s.is_valid(),
        a.0 < s.num_slots(),
        b.0 < s.num_slots(),
    ensures
        s.forms_double_pair(a, b) <==> {
            let p = s.periods_per_day as int;
            let l = s.lunch_after_period as int;
            &&& (a.0 + 1 == b.0 || b.0 + 1 == a.0)
            &&& a.0 as int / p == b.0 as int / p
            &&& (a.0 as int % p < l) == (b.0 as int % p < l)
        },
{
    let p = s.periods_per_day as int;
    let x = a.0 as int;
    let y = b.0 as int;
    vstd::arithmetic::div_mod::lemma_fundamental_div_mod(x, p);
    vstd::arithmetic::div_mod::lemma_fundamental_div_mod(y, p);
    let qa = x / p;
    let qb = y / p;
    assert(0 <= x % p < p && 0 <= y % p < p);
    assert(0 <= qa < s.days && 0 <= qb < s.days) by (nonlinear_arith)
        requires
            p >= 1,
            0 <= x < s.days * p,
            0 <= y < s.days * p,
            x == p * qa + x % p,
            y == p * qb + y % p,
            0 <= x % p < p,
            0 <= y % p < p,
    ;
    assert(s.day_of(a) == qa && s.day_of(b) == qb);
    assert(s.period_of(a) == x % p && s.period_of(b) == y % p);
    if qa == qb {
        assert(p * qa == p * qb);
        assert(x - y == x % p - y % p);
    } else {
        assert(s.day_of(a) != s.day_of(b));
    }
}

/// The seven days of a week have seven different names, each "周" followed by
/// one character.
pub proof fn lemma_day_names_distinct(d1: u8, d2: u8)
    requires
        d1 < 7,
        d2 < 7,
    ensures
        day_name_text(d1).len() == 2,
        day_name_text(d1)[0] == '周',
        d1 != d2 ==> day_name_text(d1) != day_name_text(d2),
{
    reveal_strlit("周一");
    reveal_strlit("周二");
    reveal_strlit("周三");
    reveal_strlit("周四");
    reveal_strlit("周五");
    reveal_strlit("周六");
    reveal_strlit("周日");
    if d1 != d2 {
        assert(day_name_text(d1)[1] != day_name_text(d2)[1]);
    }
}

/// Whether two slots form a double period does not depend on their order.
pub proof fn lemma_double_pair_symmetric(s: WeekSchedule, a: Slot, b: Slot)
    ensures
        s.forms_double_pair(a, b) == s.forms_double_pair(b, a),
{
}

} // verus!
