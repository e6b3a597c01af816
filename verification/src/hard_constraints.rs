//! The hard constraints stated directly, and the validator's exactness: it
//! reports nothing exactly when a timetable satisfies them all.

use vstd::prelude::*;
use crate::integrity::{integrity_errors, lemma_clean_iff_well_formed};
use crate::model::{ClassId, Lesson, Problem, RequirementId, RoomId, Slot, TeacherId, Timetable, WeekSchedule};
use crate::slot_sort::ascending;
use crate::validate::{
    class_at, count_lessons, coverage_phase, coverage_violation, daily_classes, daily_days, daily_subjects,
    daily_violation, double_days, double_phase, is_placed, lesson_phase, lesson_req,
    lesson_violations, of_requirement, requirement_slots, room_at, slots_on_day,
    subject_on_day, teacher_at, unpaired, violation_if, violations_of, Violation, ViolationKind,
    DAILY_SUBJECT_LIMIT,
};

verus! {

/// The `j`-th pair of `s`, its elements `2j` and `2j + 1`, is a legal double.
pub open spec fn pair_at(sch: WeekSchedule, s: Seq<u32>, j: int) -> bool {
    sch.forms_double_pair(Slot(s[2 * j]), Slot(s[2 * j + 1]))
}

/// `s` splits into consecutive legal doubles: (1st, 2nd), (3rd, 4th), ….
pub open spec fn pairs_up(sch: WeekSchedule, s: Seq<u32>) -> bool {
    &&& s.len() % 2 == 0
    &&& forall|j: int| 0 <= j < s.len() / 2 ==> #[trigger] pair_at(sch, s, j)
}

/// A lesson that names existing things, takes place in the room its
/// requirement prescribes, and avoids its teacher's unavailable slots.
pub open spec fn lesson_ok(p: Problem, l: Lesson) -> bool {
    let r = lesson_req(p, l);
    &&& is_placed(p, l)
    &&& l.room == r.room_for(p.classes@[r.class.0 as int])
    &&& !p.teachers@[r.teacher.0 as int].unavailable@[l.slot.0 as int]
}

/// No two lessons in one slot share a teacher, a class or a room.
pub open spec fn clash_free(p: Problem, ls: Seq<Lesson>) -> bool {
    forall|j: int, k: int|
        #![trigger ls[j], ls[k]]
        0 <= j < k < ls.len() && ls[j].slot == ls[k].slot ==> {
            &&& lesson_req(p, ls[j]).teacher != lesson_req(p, ls[k]).teacher
            &&& lesson_req(p, ls[j]).class != lesson_req(p, ls[k]).class
            &&& ls[j].room != ls[k].room
        }
}

/// Every hard constraint holds: the problem is well formed, every lesson is
/// well placed, nothing clashes, no class has more than two lessons of one
/// subject a day, the lessons of each double-period requirement pair off into
/// legal doubles day by day, and each requirement gets exactly its weekly
/// number of lessons.
pub open spec fn timetable_is_valid(p: Problem, tt: Timetable) -> bool {
    let ls = tt.lessons@;
    &&& p.is_well_formed()
    &&& forall|k: int| 0 <= k < ls.len() ==> lesson_ok(p, #[trigger] ls[k])
    &&& clash_free(p, ls)
    &&& forall|c: int, subj: int, d: int|
        0 <= c < p.classes@.len() && 0 <= subj < p.subjects@.len() && 0 <= d < p.schedule.days
            ==> #[trigger] count_lessons(ls, subject_on_day(p, c, subj, d)) <= DAILY_SUBJECT_LIMIT
    &&& forall|i: int, d: int|
        0 <= i < p.requirements@.len() && p.requirements@[i].double_period && 0 <= d
            < p.schedule.days ==> pairs_up(
            p.schedule,
            #[trigger] ascending(slots_on_day(p.schedule, requirement_slots(p, ls, i), d)),
        )
    &&& forall|i: int|
        0 <= i < p.requirements@.len() ==> #[trigger] count_lessons(ls, of_requirement(p, i))
            == p.requirements@[i].lessons_per_week
}

// ---------------------------------------------------------------------------
// Counting.
// ---------------------------------------------------------------------------

proof fn lemma_count_take_step(ls: Seq<Lesson>, f: spec_fn(Lesson) -> bool, m: int)
    requires
        0 <= m < ls.len(),
    ensures
        count_lessons(ls.take(m + 1), f) == count_lessons(ls.take(m), f) + if f(ls[m]) {
            1nat
        } else {
            0nat
        },
{
    assert(ls.take(m + 1).drop_last() =~= ls.take(m));
}

proof fn lemma_count_zero_iff(ls: Seq<Lesson>, f: spec_fn(Lesson) -> bool)
    ensures
        count_lessons(ls, f) == 0 <==> forall|j: int| 0 <= j < ls.len() ==> !f(#[trigger] ls[j]),
    decreases ls.len(),
{
    if ls.len() > 0 {
        lemma_count_zero_iff(ls.drop_last(), f);
        assert forall|j: int| 0 <= j < ls.len() - 1 implies ls.drop_last()[j] == ls[j] by {}
        if count_lessons(ls, f) == 0 {
            assert forall|j: int| 0 <= j < ls.len() implies !f(#[trigger] ls[j]) by {
                if j < ls.len() - 1 {
                    assert(ls.drop_last()[j] == ls[j]);
                }
            }
        }
        if forall|j: int| 0 <= j < ls.len() ==> !f(#[trigger] ls[j]) {
            assert forall|j: int| 0 <= j < ls.drop_last().len() implies !f(
                #[trigger] ls.drop_last()[j],
            ) by {
                assert(ls.drop_last()[j] == ls[j]);
            }
            assert(!f(ls[ls.len() - 1]));
        }
    }
}

/// When two lessons of a prefix satisfy `f`, some lesson satisfies `f` while
/// exactly one before it does: the second one.
proof fn lemma_second_hit(ls: Seq<Lesson>, f: spec_fn(Lesson) -> bool, n: int) -> (m: int)
    requires
        0 <= n <= ls.len(),
        count_lessons(ls.take(n), f) >= 2,
    ensures
        0 <= m < n,
        count_lessons(ls.take(m), f) == 1,
        f(ls[m]),
    decreases n,
{
    assert(n > 0) by {
        if n == 0 {
            assert(ls.take(0).len() == 0);
        }
    }
    lemma_count_take_step(ls, f, n - 1);
    if count_lessons(ls.take(n - 1), f) >= 2 {
        lemma_second_hit(ls, f, n - 1)
    } else {
        n - 1
    }
}

// ---------------------------------------------------------------------------
// Per-lesson violations.
// ---------------------------------------------------------------------------

proof fn lemma_lesson_phase_empty(p: Problem, ls: Seq<Lesson>)
    ensures
        lesson_phase(p, ls).len() == 0 <==> forall|k: int|
            0 <= k < ls.len() ==> (#[trigger] lesson_violations(p, ls.take(k), ls[k])).len() == 0,
    decreases ls.len(),
{
    if ls.len() > 0 {
        let pre = ls.drop_last();
        lemma_lesson_phase_empty(p, pre);
        assert forall|k: int| 0 <= k < pre.len() implies pre.take(k) =~= ls.take(k) && pre[k]
            == ls[k] by {}
        assert(ls.take(ls.len() - 1) =~= pre);
        if lesson_phase(p, ls).len() == 0 {
            assert forall|k: int| 0 <= k < ls.len() implies (#[trigger] lesson_violations(
                p,
                ls.take(k),
                ls[k],
            )).len() == 0 by {
                if k < pre.len() {
                    assert(lesson_violations(p, pre.take(k), pre[k]).len() == 0);
                    assert(pre.take(k) =~= ls.take(k));
                }
            }
        }
        if forall|k: int|
            0 <= k < ls.len() ==> (#[trigger] lesson_violations(p, ls.take(k), ls[k])).len()
                == 0 {
            assert forall|k: int| 0 <= k < pre.len() implies (#[trigger] lesson_violations(
                p,
                pre.take(k),
                pre[k],
            )).len() == 0 by {
                assert(pre.take(k) =~= ls.take(k));
                assert(lesson_violations(p, ls.take(k), ls[k]).len() == 0);
            }
            assert(lesson_violations(p, ls.take(ls.len() - 1), ls[ls.len() - 1]).len() == 0);
        }
    }
}

/// What a lesson with no violation of its own is.
proof fn lemma_lesson_violations_empty(p: Problem, before: Seq<Lesson>, l: Lesson)
    requires
        p.is_well_formed(),
    ensures
        lesson_violations(p, before, l).len() == 0 <==> {
            let r = lesson_req(p, l);
            let s = l.slot.0 as int;
            &&& lesson_ok(p, l)
            &&& count_lessons(before, teacher_at(p, r.teacher.0 as int, s)) != 1
            &&& count_lessons(before, class_at(p, r.class.0 as int, s)) != 1
            &&& count_lessons(before, room_at(p, l.room.0 as int, s)) != 1
        },
{
}

/// In a prefix where every lesson is placed, no clash with an earlier lesson
/// means no earlier lesson shares the entity and slot.
proof fn lemma_lessons_clash_iff(p: Problem, ls: Seq<Lesson>)
    requires
        p.is_well_formed(),
        forall|k: int| 0 <= k < ls.len() ==> is_placed(p, #[trigger] ls[k]),
    ensures
        clash_free(p, ls) <==> forall|k: int|
            0 <= k < ls.len() ==> {
                let r = lesson_req(p, #[trigger] ls[k]);
                let s = ls[k].slot.0 as int;
                &&& count_lessons(ls.take(k), teacher_at(p, r.teacher.0 as int, s)) != 1
                &&& count_lessons(ls.take(k), class_at(p, r.class.0 as int, s)) != 1
                &&& count_lessons(ls.take(k), room_at(p, ls[k].room.0 as int, s)) != 1
            },
{
    if clash_free(p, ls) {
        assert forall|k: int| 0 <= k < ls.len() implies {
            let r = lesson_req(p, #[trigger] ls[k]);
            let s = ls[k].slot.0 as int;
            &&& count_lessons(ls.take(k), teacher_at(p, r.teacher.0 as int, s)) != 1
            &&& count_lessons(ls.take(k), class_at(p, r.class.0 as int, s)) != 1
            &&& count_lessons(ls.take(k), room_at(p, ls[k].room.0 as int, s)) != 1
        } by {
            let r = lesson_req(p, ls[k]);
            let s = ls[k].slot.0 as int;
            let pre = ls.take(k);
            let ft = teacher_at(p, r.teacher.0 as int, s);
            let fc = class_at(p, r.class.0 as int, s);
            let fr = room_at(p, ls[k].room.0 as int, s);
            assert forall|j: int| 0 <= j < pre.len() implies !ft(#[trigger] pre[j]) && !fc(pre[j])
                && !fr(pre[j]) by {
                assert(pre[j] == ls[j]);
                if ls[j].slot == ls[k].slot {
                } else {
                    assert(ls[j].slot.0 != ls[k].slot.0);
                }
            }
            lemma_count_zero_iff(pre, ft);
            lemma_count_zero_iff(pre, fc);
            lemma_count_zero_iff(pre, fr);
        }
    }
    if forall|k: int|
        0 <= k < ls.len() ==> {
            let r = lesson_req(p, #[trigger] ls[k]);
            let s = ls[k].slot.0 as int;
            &&& count_lessons(ls.take(k), teacher_at(p, r.teacher.0 as int, s)) != 1
            &&& count_lessons(ls.take(k), class_at(p, r.class.0 as int, s)) != 1
            &&& count_lessons(ls.take(k), room_at(p, ls[k].room.0 as int, s)) != 1
        } {
        assert forall|j: int, k: int|
            #![trigger ls[j], ls[k]]
            0 <= j < k < ls.len() && ls[j].slot == ls[k].slot implies {
                &&& lesson_req(p, ls[j]).teacher != lesson_req(p, ls[k]).teacher
                &&& lesson_req(p, ls[j]).class != lesson_req(p, ls[k]).class
                &&& ls[j].room != ls[k].room
            } by {
            let r = lesson_req(p, ls[k]);
            let s = ls[k].slot.0 as int;
            let pre = ls.take(k);
            assert(pre[j] == ls[j]);
            if lesson_req(p, ls[j]).teacher == r.teacher {
                let m = lemma_clash_has_second(ls, j, k, teacher_at(p, r.teacher.0 as int, s));
                assert(lesson_req(p, ls[m]).teacher == r.teacher);
                assert(ls[m].slot.0 == s);
            }
            if lesson_req(p, ls[j]).class == r.class {
                let m = lemma_clash_has_second(ls, j, k, class_at(p, r.class.0 as int, s));
                assert(lesson_req(p, ls[m]).class == r.class);
                assert(ls[m].slot.0 == s);
            }
            if ls[j].room == ls[k].room {
                let m = lemma_clash_has_second(ls, j, k, room_at(p, ls[k].room.0 as int, s));
                assert(ls[m].room == ls[k].room);
                assert(ls[m].slot.0 == s);
            }
        }
    }
}

/// Two lessons `j < k` that both satisfy `f` leave a lesson `m <= k` that
/// satisfies `f` with exactly one such lesson before it.
proof fn lemma_clash_has_second(ls: Seq<Lesson>, j: int, k: int, f: spec_fn(Lesson) -> bool) -> (m: int)
    requires
        0 <= j < k < ls.len(),
        f(ls[j]),
        f(ls[k]),
    ensures
        0 <= m <= k,
        f(ls[m]),
        count_lessons(ls.take(m), f) == 1,
{
    let pre = ls.take(k);
    assert(pre[j] == ls[j]);
    lemma_count_zero_iff(pre, f);
    lemma_count_take_step(ls, f, k);
    lemma_second_hit(ls, f, k + 1)
}

// ---------------------------------------------------------------------------
// Daily limits, doubles, coverage.
// ---------------------------------------------------------------------------

proof fn lemma_daily_days_empty(p: Problem, ls: Seq<Lesson>, c: int, subj: int, nd: nat)
    ensures
        daily_days(p, ls, c, subj, nd).len() == 0 <==> forall|d: int|
            0 <= d < nd ==> #[trigger] count_lessons(ls, subject_on_day(p, c, subj, d))
                <= DAILY_SUBJECT_LIMIT,
    decreases nd,
{
    if nd > 0 {
        lemma_daily_days_empty(p, ls, c, subj, (nd - 1) as nat);
        assert(daily_violation(p, ls, c, subj, nd - 1).len() == 0 <==> count_lessons(
            ls,
            subject_on_day(p, c, subj, nd - 1),
        ) <= DAILY_SUBJECT_LIMIT);
    }
}

proof fn lemma_daily_subjects_empty(p: Problem, ls: Seq<Lesson>, c: int, ns: nat)
    ensures
        daily_subjects(p, ls, c, ns).len() == 0 <==> forall|subj: int, d: int|
            0 <= subj < ns && 0 <= d < p.schedule.days ==> #[trigger] count_lessons(
                ls,
                subject_on_day(p, c, subj, d),
            ) <= DAILY_SUBJECT_LIMIT,
    decreases ns,
{
    if ns > 0 {
        lemma_daily_subjects_empty(p, ls, c, (ns - 1) as nat);
        lemma_daily_days_empty(p, ls, c, ns - 1, p.schedule.days as nat);
    }
}

proof fn lemma_daily_classes_empty(p: Problem, ls: Seq<Lesson>, nc: nat)
    ensures
        daily_classes(p, ls, nc).len() == 0 <==> forall|c: int, subj: int, d: int|
            0 <= c < nc && 0 <= subj < p.subjects@.len() && 0 <= d < p.schedule.days
                ==> #[trigger] count_lessons(ls, subject_on_day(p, c, subj, d))
                <= DAILY_SUBJECT_LIMIT,
    decreases nc,
{
    if nc > 0 {
        lemma_daily_classes_empty(p, ls, (nc - 1) as nat);
        lemma_daily_subjects_empty(p, ls, nc - 1, p.subjects@.len());
    }
}

/// Greedy pairing leaves nothing alone exactly when the slots split into
/// consecutive legal doubles.
pub proof fn lemma_unpaired_empty_iff(sch: WeekSchedule, s: Seq<u32>, id: RequirementId)
    ensures
        unpaired(sch, s, id).len() == 0 <==> pairs_up(sch, s),
    decreases s.len(),
{
    if s.len() == 0 {
    } else if s.len() >= 2 && sch.forms_double_pair(Slot(s[0]), Slot(s[1])) {
        let rest = s.subrange(2, s.len() as int);
        lemma_unpaired_empty_iff(sch, rest, id);
        if pairs_up(sch, rest) {
            assert forall|j: int| 0 <= j < s.len() / 2 implies #[trigger] pair_at(sch, s, j) by {
                if j > 0 {
                    assert(pair_at(sch, rest, j - 1));
                    assert(rest[2 * (j - 1)] == s[2 * j]);
                    assert(rest[2 * (j - 1) + 1] == s[2 * j + 1]);
                }
            }
        }
        if pairs_up(sch, s) {
            assert forall|j: int| 0 <= j < rest.len() / 2 implies #[trigger] pair_at(
                sch,
                rest,
                j,
            ) by {
                assert(pair_at(sch, s, j + 1));
                assert(rest[2 * j] == s[2 * (j + 1)]);
                assert(rest[2 * j + 1] == s[2 * (j + 1) + 1]);
            }
        }
    } else {
        if s.len() >= 2 {
            assert(!pair_at(sch, s, 0));
        }
    }
}

proof fn lemma_double_days_empty(p: Problem, ls: Seq<Lesson>, i: int, nd: nat)
    ensures
        double_days(p, ls, i, nd).len() == 0 <==> forall|d: int|
            0 <= d < nd ==> pairs_up(
                p.schedule,
                #[trigger] ascending(slots_on_day(p.schedule, requirement_slots(p, ls, i), d)),
            ),
    decreases nd,
{
    if nd > 0 {
        lemma_double_days_empty(p, ls, i, (nd - 1) as nat);
        lemma_unpaired_empty_iff(
            p.schedule,
            ascending(slots_on_day(p.schedule, requirement_slots(p, ls, i), nd - 1)),
            p.requirements@[i].id,
        );
    }
}

proof fn lemma_double_phase_empty(p: Problem, ls: Seq<Lesson>, n: nat)
    ensures
        double_phase(p, ls, n).len() == 0 <==> forall|i: int, d: int|
            0 <= i < n && p.requirements@[i].double_period && 0 <= d < p.schedule.days
                ==> pairs_up(
                p.schedule,
                #[trigger] ascending(slots_on_day(p.schedule, requirement_slots(p, ls, i), d)),
            ),
    decreases n,
{
    if n > 0 {
        lemma_double_phase_empty(p, ls, (n - 1) as nat);
        lemma_double_days_empty(p, ls, n - 1, p.schedule.days as nat);
    }
}

proof fn lemma_coverage_phase_empty(p: Problem, ls: Seq<Lesson>, n: nat)
    ensures
        coverage_phase(p, ls, n).len() == 0 <==> forall|i: int|
            0 <= i < n ==> #[trigger] count_lessons(ls, of_requirement(p, i))
                == p.requirements@[i].lessons_per_week,
    decreases n,
{
    if n > 0 {
        lemma_coverage_phase_empty(p, ls, (n - 1) as nat);
    }
}

// ---------------------------------------------------------------------------
// The laws.
// ---------------------------------------------------------------------------

/// The validator reports nothing exactly when the timetable satisfies every
/// hard constraint.
pub proof fn lemma_no_violations_iff_valid(p: Problem, tt: Timetable)
    ensures
        violations_of(p, tt).len() == 0 <==> timetable_is_valid(p, tt),
{
    let ls = tt.lessons@;
    lemma_clean_iff_well_formed(p);
    if integrity_errors(p).len() > 0 {
        assert(violations_of(p, tt).len() == integrity_errors(p).len());
        return;
    }
    lemma_lesson_phase_empty(p, ls);
    lemma_daily_classes_empty(p, ls, p.classes@.len());
    lemma_double_phase_empty(p, ls, p.requirements@.len());
    lemma_coverage_phase_empty(p, ls, p.requirements@.len());
    assert forall|k: int| 0 <= k < ls.len() implies (#[trigger] lesson_violations(
        p,
        ls.take(k),
        ls[k],
    )).len() == 0 <==> {
        let r = lesson_req(p, ls[k]);
        let s = ls[k].slot.0 as int;
        &&& lesson_ok(p, ls[k])
        &&& count_lessons(ls.take(k), teacher_at(p, r.teacher.0 as int, s)) != 1
        &&& count_lessons(ls.take(k), class_at(p, r.class.0 as int, s)) != 1
        &&& count_lessons(ls.take(k), room_at(p, ls[k].room.0 as int, s)) != 1
    } by {
        lemma_lesson_violations_empty(p, ls.take(k), ls[k]);
    }
    if violations_of(p, tt).len() == 0 {
        assert(lesson_phase(p, ls).len() == 0);
        assert forall|k: int| 0 <= k < ls.len() implies lesson_ok(p, #[trigger] ls[k]) by {
            assert(lesson_violations(p, ls.take(k), ls[k]).len() == 0);
        }
        assert forall|k: int| 0 <= k < ls.len() implies is_placed(p, #[trigger] ls[k]) by {
            assert(lesson_ok(p, ls[k]));
        }
        lemma_lessons_clash_iff(p, ls);
        assert forall|k: int| 0 <= k < ls.len() implies {
            let r = lesson_req(p, #[trigger] ls[k]);
            let s = ls[k].slot.0 as int;
            &&& count_lessons(ls.take(k), teacher_at(p, r.teacher.0 as int, s)) != 1
            &&& count_lessons(ls.take(k), class_at(p, r.class.0 as int, s)) != 1
            &&& count_lessons(ls.take(k), room_at(p, ls[k].room.0 as int, s)) != 1
        } by {
            assert(lesson_violations(p, ls.take(k), ls[k]).len() == 0);
        }
    }
    if timetable_is_valid(p, tt) {
        assert forall|k: int| 0 <= k < ls.len() implies is_placed(p, #[trigger] ls[k]) by {
            assert(lesson_ok(p, ls[k]));
        }
        lemma_lessons_clash_iff(p, ls);
        assert forall|k: int| 0 <= k < ls.len() implies (#[trigger] lesson_violations(
            p,
            ls.take(k),
            ls[k],
        )).len() == 0 by {
            assert(lesson_ok(p, ls[k]));
        }
    }
}

/// A problem that fails its integrity check yields only `InvalidProblem`
/// violations, one per integrity error, in order.
pub proof fn lemma_invalid_problem_reports_only_integrity(p: Problem, tt: Timetable)
    requires
        integrity_errors(p).len() > 0,
    ensures
        violations_of(p, tt).len() == integrity_errors(p).len(),
        forall|k: int|
            0 <= k < integrity_errors(p).len() ==> #[trigger] violations_of(p, tt)[k]
                == (crate::validate::Violation {
                kind: crate::validate::ViolationKind::InvalidProblem(integrity_errors(p)[k]),
                slot: None,
            }),
{
}


// ---------------------------------------------------------------------------
// Each clash is reported once.
// ---------------------------------------------------------------------------

/// How many times `v` occurs in `vs`.
pub open spec fn occurrences(vs: Seq<Violation>, v: Violation) -> nat
    decreases vs.len(),
{
    if vs.len() == 0 {
        0
    } else {
        occurrences(vs.drop_last(), v) + if vs.last() == v {
            1nat
        } else {
            0nat
        }
    }
}

/// The teacher clash of teacher `t` in slot `s`.
pub open spec fn teacher_clash(t: int, s: int) -> Violation {
    Violation {
        kind: ViolationKind::TeacherConflict { teacher: TeacherId(t as u32) },
        slot: Some(Slot(s as u32)),
    }
}

/// The class clash of class `c` in slot `s`.
pub open spec fn class_clash(c: int, s: int) -> Violation {
    Violation {
        kind: ViolationKind::ClassConflict { class: ClassId(c as u32) },
        slot: Some(Slot(s as u32)),
    }
}

/// The room clash of room `r` in slot `s`.
pub open spec fn room_clash(r: int, s: int) -> Violation {
    Violation { kind: ViolationKind::RoomConflict { room: RoomId(r as u32) }, slot: Some(Slot(s as u32)) }
}

/// One if `n` lessons clash (two or more), zero otherwise.
pub open spec fn clash_reports(n: nat) -> nat {
    if n >= 2 {
        1
    } else {
        0
    }
}

proof fn lemma_occurrences_add(a: Seq<Violation>, b: Seq<Violation>, v: Violation)
    ensures
        occurrences(a + b, v) == occurrences(a, v) + occurrences(b, v),
    decreases b.len(),
{
    if b.len() == 0 {
        assert(a + b =~= a);
    } else {
        lemma_occurrences_add(a, b.drop_last(), v);
        assert((a + b).drop_last() =~= a + b.drop_last());
    }
}

proof fn lemma_occurrences_violation_if(x: Seq<Violation>, v: Violation)
    requires
        x.len() <= 1,
    ensures
        occurrences(x, v) == if x.len() == 1 && x[0] == v {
            1nat
        } else {
            0nat
        },
{
    if x.len() == 1 {
        assert(x.drop_last() =~= Seq::<Violation>::empty());
        assert(occurrences(x.drop_last(), v) == 0);
        assert(x.last() == x[0]);
    }
}

proof fn lemma_occurrences_none(vs: Seq<Violation>, v: Violation)
    requires
        forall|k: int| 0 <= k < vs.len() ==> vs[k] != v,
    ensures
        occurrences(vs, v) == 0,
    decreases vs.len(),
{
    if vs.len() > 0 {
        lemma_occurrences_none(vs.drop_last(), v);
    }
}

/// Every element of `a + b` satisfies `good` when those of `a` and `b` do.
proof fn lemma_all_add(a: Seq<Violation>, b: Seq<Violation>, good: spec_fn(Violation) -> bool)
    requires
        forall|k: int| 0 <= k < a.len() ==> good(#[trigger] a[k]),
        forall|k: int| 0 <= k < b.len() ==> good(#[trigger] b[k]),
    ensures
        forall|k: int| 0 <= k < (a + b).len() ==> good(#[trigger] (a + b)[k]),
{
    assert forall|k: int| 0 <= k < (a + b).len() implies good(#[trigger] (a + b)[k]) by {
        if k < a.len() {
            assert((a + b)[k] == a[k]);
        } else {
            assert((a + b)[k] == b[k - a.len()]);
        }
    }
}

/// Not a clash.
pub open spec fn not_a_clash() -> spec_fn(Violation) -> bool {
    |v: Violation|
        !(v.kind is TeacherConflict) && !(v.kind is ClassConflict) && !(v.kind is RoomConflict)
}

proof fn lemma_daily_no_clash(p: Problem, ls: Seq<Lesson>, nc: nat)
    ensures
        forall|k: int|
            0 <= k < daily_classes(p, ls, nc).len() ==> (not_a_clash())(
                #[trigger] daily_classes(p, ls, nc)[k],
            ),
    decreases nc,
{
    if nc > 0 {
        lemma_daily_no_clash(p, ls, (nc - 1) as nat);
        lemma_daily_subjects_no_clash(p, ls, nc - 1, p.subjects@.len());
        lemma_all_add(
            daily_classes(p, ls, (nc - 1) as nat),
            daily_subjects(p, ls, nc - 1, p.subjects@.len()),
            not_a_clash(),
        );
    }
}

proof fn lemma_daily_subjects_no_clash(p: Problem, ls: Seq<Lesson>, c: int, ns: nat)
    ensures
        forall|k: int|
            0 <= k < daily_subjects(p, ls, c, ns).len() ==> (not_a_clash())(
                #[trigger] daily_subjects(p, ls, c, ns)[k],
            ),
    decreases ns,
{
    if ns > 0 {
        lemma_daily_subjects_no_clash(p, ls, c, (ns - 1) as nat);
        lemma_daily_days_no_clash(p, ls, c, ns - 1, p.schedule.days as nat);
        lemma_all_add(
            daily_subjects(p, ls, c, (ns - 1) as nat),
            daily_days(p, ls, c, ns - 1, p.schedule.days as nat),
            not_a_clash(),
        );
    }
}

proof fn lemma_daily_days_no_clash(p: Problem, ls: Seq<Lesson>, c: int, subj: int, nd: nat)
    ensures
        forall|k: int|
            0 <= k < daily_days(p, ls, c, subj, nd).len() ==> (not_a_clash())(
                #[trigger] daily_days(p, ls, c, subj, nd)[k],
            ),
    decreases nd,
{
    if nd > 0 {
        lemma_daily_days_no_clash(p, ls, c, subj, (nd - 1) as nat);
        lemma_all_add(
            daily_days(p, ls, c, subj, (nd - 1) as nat),
            daily_violation(p, ls, c, subj, nd - 1),
            not_a_clash(),
        );
    }
}

proof fn lemma_unpaired_no_clash(sch: WeekSchedule, s: Seq<u32>, id: RequirementId)
    ensures
        forall|k: int|
            0 <= k < unpaired(sch, s, id).len() ==> (not_a_clash())(
                #[trigger] unpaired(sch, s, id)[k],
            ),
    decreases s.len(),
{
    if s.len() == 0 {
    } else if s.len() >= 2 && sch.forms_double_pair(Slot(s[0]), Slot(s[1])) {
        lemma_unpaired_no_clash(sch, s.subrange(2, s.len() as int), id);
        assert(unpaired(sch, s, id) == unpaired(sch, s.subrange(2, s.len() as int), id));
    } else {
        let rest = s.subrange(1, s.len() as int);
        lemma_unpaired_no_clash(sch, rest, id);
        let first = seq![
            Violation {
                kind: ViolationKind::BrokenDoublePeriod { requirement: id },
                slot: Some(Slot(s[0])),
            },
        ];
        assert((not_a_clash())(first[0]));
        assert(unpaired(sch, s, id) == first + unpaired(sch, rest, id));
        lemma_all_add(
            seq![
                Violation {
                    kind: ViolationKind::BrokenDoublePeriod { requirement: id },
                    slot: Some(Slot(s[0])),
                },
            ],
            unpaired(sch, rest, id),
            not_a_clash(),
        );
    }
}

proof fn lemma_double_days_no_clash(p: Problem, ls: Seq<Lesson>, i: int, nd: nat)
    ensures
        forall|k: int|
            0 <= k < double_days(p, ls, i, nd).len() ==> (not_a_clash())(
                #[trigger] double_days(p, ls, i, nd)[k],
            ),
    decreases nd,
{
    if nd > 0 {
        lemma_double_days_no_clash(p, ls, i, (nd - 1) as nat);
        let u = unpaired(
            p.schedule,
            ascending(slots_on_day(p.schedule, requirement_slots(p, ls, i), nd - 1)),
            p.requirements@[i].id,
        );
        lemma_unpaired_no_clash(
            p.schedule,
            ascending(slots_on_day(p.schedule, requirement_slots(p, ls, i), nd - 1)),
            p.requirements@[i].id,
        );
        lemma_all_add(double_days(p, ls, i, (nd - 1) as nat), u, not_a_clash());
    }
}

proof fn lemma_double_phase_no_clash(p: Problem, ls: Seq<Lesson>, n: nat)
    ensures
        forall|k: int|
            0 <= k < double_phase(p, ls, n).len() ==> (not_a_clash())(
                #[trigger] double_phase(p, ls, n)[k],
            ),
    decreases n,
{
    if n > 0 {
        lemma_double_phase_no_clash(p, ls, (n - 1) as nat);
        lemma_double_days_no_clash(p, ls, n - 1, p.schedule.days as nat);
        let d = if p.requirements@[n - 1].double_period {
            double_days(p, ls, n - 1, p.schedule.days as nat)
        } else {
            Seq::empty()
        };
        lemma_all_add(double_phase(p, ls, (n - 1) as nat), d, not_a_clash());
    }
}

proof fn lemma_coverage_no_clash(p: Problem, ls: Seq<Lesson>, n: nat)
    ensures
        forall|k: int|
            0 <= k < coverage_phase(p, ls, n).len() ==> (not_a_clash())(
                #[trigger] coverage_phase(p, ls, n)[k],
            ),
    decreases n,
{
    if n > 0 {
        lemma_coverage_no_clash(p, ls, (n - 1) as nat);
        lemma_all_add(
            coverage_phase(p, ls, (n - 1) as nat),
            coverage_violation(p, ls, n - 1),
            not_a_clash(),
        );
    }
}

/// The teacher, class and room clash reports of a placed lesson.
pub open spec fn clash_pieces(p: Problem, before: Seq<Lesson>, l: Lesson) -> (
    Seq<Violation>,
    Seq<Violation>,
    Seq<Violation>,
) {
    let r = lesson_req(p, l);
    let sl = l.slot.0 as int;
    (
        violation_if(
            count_lessons(before, teacher_at(p, r.teacher.0 as int, sl)) == 1,
            Violation {
                kind: ViolationKind::TeacherConflict { teacher: r.teacher },
                slot: Some(l.slot),
            },
        ),
        violation_if(
            count_lessons(before, class_at(p, r.class.0 as int, sl)) == 1,
            Violation { kind: ViolationKind::ClassConflict { class: r.class }, slot: Some(l.slot) },
        ),
        violation_if(
            count_lessons(before, room_at(p, l.room.0 as int, sl)) == 1,
            Violation { kind: ViolationKind::RoomConflict { room: l.room }, slot: Some(l.slot) },
        ),
    )
}

/// For a clash `v`, only the clash reports of a lesson can be `v`.
proof fn lemma_lesson_occurrences_split(p: Problem, before: Seq<Lesson>, l: Lesson, v: Violation)
    requires
        !(not_a_clash())(v),
    ensures
        occurrences(lesson_violations(p, before, l), v) == if is_placed(p, l) {
            occurrences(clash_pieces(p, before, l).0, v) + occurrences(
                clash_pieces(p, before, l).1,
                v,
            ) + occurrences(clash_pieces(p, before, l).2, v)
        } else {
            0
        },
{
    let lv = lesson_violations(p, before, l);
    if !is_placed(p, l) {
        lemma_occurrences_violation_if(lv, v);
    } else {
        let r = lesson_req(p, l);
        let sl = l.slot.0 as int;
        let expected = r.room_for(p.classes@[r.class.0 as int]);
        let a = violation_if(
            l.room != expected,
            Violation {
                kind: ViolationKind::RoomMismatch {
                    requirement: r.id,
                    expected: expected,
                    actual: l.room,
                },
                slot: Some(l.slot),
            },
        );
        let (b, c, d) = clash_pieces(p, before, l);
        let u = violation_if(
            p.teachers@[r.teacher.0 as int].unavailable@[sl],
            Violation {
                kind: ViolationKind::TeacherUnavailable { teacher: r.teacher },
                slot: Some(l.slot),
            },
        );
        assert(lv == a + b + c + d + u);
        lemma_occurrences_add(a + b + c + d, u, v);
        lemma_occurrences_add(a + b + c, d, v);
        lemma_occurrences_add(a + b, c, v);
        lemma_occurrences_add(a, b, v);
        lemma_occurrences_violation_if(a, v);
        lemma_occurrences_violation_if(u, v);
    }
}

/// How often one lesson reports a given clash: once, when it is the second
/// lesson of that entity in that slot.
proof fn lemma_lesson_clash_occurrences(p: Problem, before: Seq<Lesson>, l: Lesson, e: int, s: int)
    requires
        0 <= e <= u32::MAX,
        0 <= s <= u32::MAX,
    ensures
        occurrences(lesson_violations(p, before, l), teacher_clash(e, s)) == if (teacher_at(
            p,
            e,
            s,
        ))(l) && count_lessons(before, teacher_at(p, e, s)) == 1 {
            1nat
        } else {
            0nat
        },
        occurrences(lesson_violations(p, before, l), class_clash(e, s)) == if (class_at(p, e, s))(
            l,
        ) && count_lessons(before, class_at(p, e, s)) == 1 {
            1nat
        } else {
            0nat
        },
        occurrences(lesson_violations(p, before, l), room_clash(e, s)) == if (room_at(p, e, s))(l)
            && count_lessons(before, room_at(p, e, s)) == 1 {
            1nat
        } else {
            0nat
        },
{
    let (b, c, d) = clash_pieces(p, before, l);
    lemma_lesson_occurrences_split(p, before, l, teacher_clash(e, s));
    lemma_lesson_occurrences_split(p, before, l, class_clash(e, s));
    lemma_lesson_occurrences_split(p, before, l, room_clash(e, s));
    lemma_occurrences_violation_if(b, teacher_clash(e, s));
    lemma_occurrences_violation_if(c, teacher_clash(e, s));
    lemma_occurrences_violation_if(d, teacher_clash(e, s));
    lemma_occurrences_violation_if(b, class_clash(e, s));
    lemma_occurrences_violation_if(c, class_clash(e, s));
    lemma_occurrences_violation_if(d, class_clash(e, s));
    lemma_occurrences_violation_if(b, room_clash(e, s));
    lemma_occurrences_violation_if(c, room_clash(e, s));
    lemma_occurrences_violation_if(d, room_clash(e, s));
}

proof fn lemma_phase_clash_occurrences(p: Problem, ls: Seq<Lesson>, e: int, s: int)
    requires
        0 <= e <= u32::MAX,
        0 <= s <= u32::MAX,
    ensures
        occurrences(lesson_phase(p, ls), teacher_clash(e, s)) == clash_reports(
            count_lessons(ls, teacher_at(p, e, s)),
        ),
        occurrences(lesson_phase(p, ls), class_clash(e, s)) == clash_reports(
            count_lessons(ls, class_at(p, e, s)),
        ),
        occurrences(lesson_phase(p, ls), room_clash(e, s)) == clash_reports(
            count_lessons(ls, room_at(p, e, s)),
        ),
    decreases ls.len(),
{
    if ls.len() > 0 {
        let pre = ls.drop_last();
        let l = ls.last();
        lemma_phase_clash_occurrences(p, pre, e, s);
        lemma_lesson_clash_occurrences(p, pre, l, e, s);
        lemma_occurrences_add(lesson_phase(p, pre), lesson_violations(p, pre, l), teacher_clash(e, s));
        lemma_occurrences_add(lesson_phase(p, pre), lesson_violations(p, pre, l), class_clash(e, s));
        lemma_occurrences_add(lesson_phase(p, pre), lesson_violations(p, pre, l), room_clash(e, s));
    }
}

/// A clash is reported exactly once per entity and slot: the validator
/// reports a teacher's (a class's, a room's) clash in a slot once when two or
/// more placed lessons of it fall there, and not at all otherwise.
pub proof fn lemma_clash_reported_once(p: Problem, tt: Timetable, e: int, s: int)
    requires
        p.is_well_formed(),
        0 <= e <= u32::MAX,
        0 <= s <= u32::MAX,
    ensures
        occurrences(violations_of(p, tt), teacher_clash(e, s)) == clash_reports(
            count_lessons(tt.lessons@, teacher_at(p, e, s)),
        ),
        occurrences(violations_of(p, tt), class_clash(e, s)) == clash_reports(
            count_lessons(tt.lessons@, class_at(p, e, s)),
        ),
        occurrences(violations_of(p, tt), room_clash(e, s)) == clash_reports(
            count_lessons(tt.lessons@, room_at(p, e, s)),
        ),
{
    let ls = tt.lessons@;
    lemma_clean_iff_well_formed(p);
    let lp = lesson_phase(p, ls);
    let dp = daily_classes(p, ls, p.classes@.len());
    let bp = double_phase(p, ls, p.requirements@.len());
    let cp = coverage_phase(p, ls, p.requirements@.len());
    assert(violations_of(p, tt) == lp + dp + bp + cp);
    lemma_phase_clash_occurrences(p, ls, e, s);
    lemma_daily_no_clash(p, ls, p.classes@.len());
    lemma_double_phase_no_clash(p, ls, p.requirements@.len());
    lemma_coverage_no_clash(p, ls, p.requirements@.len());
    lemma_all_add(dp, bp, not_a_clash());
    lemma_all_add(dp + bp, cp, not_a_clash());
    let rest = dp + bp + cp;
    assert(lp + dp + bp + cp =~= lp + rest);
    let vs = seq![teacher_clash(e, s), class_clash(e, s), room_clash(e, s)];
    assert forall|j: int| 0 <= j < 3 implies occurrences(lp + rest, #[trigger] vs[j]) == occurrences(
        lp,
        vs[j],
    ) by {
        assert forall|k: int| 0 <= k < rest.len() implies rest[k] != vs[j] by {
            assert((not_a_clash())(rest[k]));
        }
        lemma_occurrences_none(rest, vs[j]);
        lemma_occurrences_add(lp, rest, vs[j]);
    }
    assert(vs[0] == teacher_clash(e, s));
    assert(vs[1] == class_clash(e, s));
    assert(vs[2] == room_clash(e, s));
}

} // verus!
