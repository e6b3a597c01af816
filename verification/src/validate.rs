//! Hard-constraint validator: given a complete timetable, report every hard
//! constraint it breaks.
//!
//! Rules:
//! 1. A teacher, a class or a room has at most one lesson per slot.
//! 2. A teacher's unavailable slots are avoided.
//! 3. Lessons of a double-period requirement come in adjacent pairs that do
//!    not straddle lunch.
//! 4. A class has at most two lessons of one subject per day.
//! 5. Each requirement gets exactly its weekly number of lessons.
//! 6. Each lesson takes place in the room its requirement prescribes.
//!
//! Before any of this, the problem's own integrity is checked; when it fails,
//! only those errors are reported.

use vstd::prelude::*;
use vstd::string::*;
use crate::bitmap::Bitmap;
use crate::integrity::{integrity_errors, integrity_error_text, lemma_clean_iff_well_formed, IntegrityError};
use crate::model::{ClassId, Lesson, Problem, Requirement, RequirementId, RoomId, Slot, SubjectId, TeacherId, Timetable, WeekSchedule};
use crate::slot_sort::{ascending, sort_slots};
use crate::text::{decimal_text, push_decimal};

verus! {

/// The kind of a broken hard constraint, with the entities involved.
#[allow(inconsistent_fields)]
#[derive(Clone, Copy, Debug, PartialEq, Eq, Structural)]
pub enum ViolationKind {
    /// A teacher has several lessons in one slot.
    TeacherConflict { teacher: TeacherId },
    /// A class has several lessons in one slot.
    ClassConflict { class: ClassId },
    /// A room hosts several lessons in one slot.
    RoomConflict { room: RoomId },
    /// A lesson falls in a slot its teacher is unavailable.
    TeacherUnavailable { teacher: TeacherId },
    /// A lesson of a double-period requirement has no adjacent partner (or its
    /// partner is across lunch).
    BrokenDoublePeriod { requirement: RequirementId },
    /// A class has more than two lessons of one subject on one day.
    SubjectDailyLimit { class: ClassId, subject: SubjectId, count: u32 },
    /// A requirement got more or fewer lessons than its weekly number.
    RequirementCoverage { requirement: RequirementId, expected: u32, actual: u32 },
    /// A lesson is not in the room its requirement prescribes.
    RoomMismatch { requirement: RequirementId, expected: RoomId, actual: RoomId },
    /// Malformed timetable: a slot beyond the week.
    SlotOutOfRange { slot: u32 },
    /// Malformed timetable: a lesson of a requirement that does not exist.
    UnknownRequirement { id: u32 },
    /// Malformed timetable: a lesson in a room that does not exist.
    UnknownRoom { id: u32 },
    /// The problem itself fails its integrity check.
    InvalidProblem(IntegrityError),
}

/// One broken constraint. `slot` is `None` when it concerns no single slot
/// (such as a lesson count).
#[derive(Clone, Copy, Debug, PartialEq, Eq, Structural)]
pub struct Violation {
    pub kind: ViolationKind,
    pub slot: Option<Slot>,
}

/// At most this many lessons of one subject per class and day.
pub const DAILY_SUBJECT_LIMIT: u32 = 2;

// ---------------------------------------------------------------------------
// What the validator reports, stated over the problem and the lessons.
// ---------------------------------------------------------------------------

/// How many lessons of `ls` satisfy `f`.
pub open spec fn count_lessons(ls: Seq<Lesson>, f: spec_fn(Lesson) -> bool) -> nat
    decreases ls.len(),
{
    if ls.len() == 0 {
        0
    } else {
        count_lessons(ls.drop_last(), f) + if f(ls.last()) {
            1nat
        } else {
            0nat
        }
    }
}

/// A lesson that names an existing requirement, a slot of the week and an
/// existing room; only such lessons take part in the constraint checks.
pub open spec fn is_placed(p: Problem, l: Lesson) -> bool {
    &&& l.requirement.0 < p.requirements@.len()
    &&& l.slot.0 < p.schedule.num_slots()
    &&& l.room.0 < p.rooms@.len()
}

/// The requirement a lesson belongs to.
pub open spec fn lesson_req(p: Problem, l: Lesson) -> Requirement {
    p.requirements@[l.requirement.0 as int]
}

/// Placed lessons of teacher `t` in slot `s`.
pub open spec fn teacher_at(p: Problem, t: int, s: int) -> spec_fn(Lesson) -> bool {
    |l: Lesson| is_placed(p, l) && lesson_req(p, l).teacher.0 == t && l.slot.0 == s
}

/// Placed lessons of class `c` in slot `s`.
pub open spec fn class_at(p: Problem, c: int, s: int) -> spec_fn(Lesson) -> bool {
    |l: Lesson| is_placed(p, l) && lesson_req(p, l).class.0 == c && l.slot.0 == s
}

/// Placed lessons in room `r` in slot `s`.
pub open spec fn room_at(p: Problem, r: int, s: int) -> spec_fn(Lesson) -> bool {
    |l: Lesson| is_placed(p, l) && l.room.0 == r && l.slot.0 == s
}

/// Placed lessons of class `c` and subject `subj` on day `d`.
pub open spec fn subject_on_day(p: Problem, c: int, subj: int, d: int) -> spec_fn(
    Lesson,
) -> bool {
    |l: Lesson|
        is_placed(p, l) && lesson_req(p, l).class.0 == c && lesson_req(p, l).subject.0 == subj
            && p.schedule.day_of(l.slot) == d
}

/// Placed lessons of the requirement at position `i`.
pub open spec fn of_requirement(p: Problem, i: int) -> spec_fn(Lesson) -> bool {
    |l: Lesson| is_placed(p, l) && l.requirement.0 == i
}

/// The violation list with `v` when `cond` holds, empty otherwise.
pub open spec fn violation_if(cond: bool, v: Violation) -> Seq<Violation> {
    if cond {
        seq![v]
    } else {
        Seq::empty()
    }
}

/// What one lesson breaks, given the lessons before it. A conflict is
/// reported once per entity and slot: by the second lesson that lands there.
pub open spec fn lesson_violations(p: Problem, before: Seq<Lesson>, l: Lesson) -> Seq<Violation> {
    if l.requirement.0 >= p.requirements@.len() {
        seq![
            Violation {
                kind: ViolationKind::UnknownRequirement { id: l.requirement.0 },
                slot: None,
            },
        ]
    } else if l.slot.0 >= p.schedule.num_slots() {
        seq![Violation { kind: ViolationKind::SlotOutOfRange { slot: l.slot.0 }, slot: None }]
    } else if l.room.0 >= p.rooms@.len() {
        seq![Violation { kind: ViolationKind::UnknownRoom { id: l.room.0 }, slot: Some(l.slot) }]
    } else {
        let r = lesson_req(p, l);
        let s = l.slot.0 as int;
        let expected = r.room_for(p.classes@[r.class.0 as int]);
        violation_if(
            l.room != expected,
            Violation {
                kind: ViolationKind::RoomMismatch {
                    requirement: r.id,
                    expected: expected,
                    actual: l.room,
                },
                slot: Some(l.slot),
            },
        ) + violation_if(
            count_lessons(before, teacher_at(p, r.teacher.0 as int, s)) == 1,
            Violation {
                kind: ViolationKind::TeacherConflict { teacher: r.teacher },
                slot: Some(l.slot),
            },
        ) + violation_if(
            count_lessons(before, class_at(p, r.class.0 as int, s)) == 1,
            Violation { kind: ViolationKind::ClassConflict { class: r.class }, slot: Some(l.slot) },
        ) + violation_if(
            count_lessons(before, room_at(p, l.room.0 as int, s)) == 1,
            Violation { kind: ViolationKind::RoomConflict { room: l.room }, slot: Some(l.slot) },
        ) + violation_if(
            p.teachers@[r.teacher.0 as int].unavailable@[s],
            Violation {
                kind: ViolationKind::TeacherUnavailable { teacher: r.teacher },
                slot: Some(l.slot),
            },
        )
    }
}

/// Per-lesson violations of all of `ls`, lesson by lesson.
pub open spec fn lesson_phase(p: Problem, ls: Seq<Lesson>) -> Seq<Violation>
    decreases ls.len(),
{
    if ls.len() == 0 {
        Seq::empty()
    } else {
        lesson_phase(p, ls.drop_last()) + lesson_violations(p, ls.drop_last(), ls.last())
    }
}

/// The daily-limit violation of class `c`, subject `subj`, day `d`, if any;
/// it is marked with the first slot of that day.
pub open spec fn daily_violation(p: Problem, ls: Seq<Lesson>, c: int, subj: int, d: int) -> Seq<
    Violation,
> {
    let n = count_lessons(ls, subject_on_day(p, c, subj, d));
    violation_if(
        n > DAILY_SUBJECT_LIMIT,
        Violation {
            kind: ViolationKind::SubjectDailyLimit {
                class: ClassId(c as u32),
                subject: SubjectId(subj as u32),
                count: n as u32,
            },
            slot: Some(Slot((d * p.schedule.periods_per_day) as u32)),
        },
    )
}

/// Daily-limit violations of class `c`, subject `subj`, days below `nd`.
pub open spec fn daily_days(p: Problem, ls: Seq<Lesson>, c: int, subj: int, nd: nat) -> Seq<
    Violation,
>
    decreases nd,
{
    if nd == 0 {
        Seq::empty()
    } else {
        daily_days(p, ls, c, subj, (nd - 1) as nat) + daily_violation(p, ls, c, subj, nd - 1)
    }
}

/// Daily-limit violations of class `c`, subjects below `ns`.
pub open spec fn daily_subjects(p: Problem, ls: Seq<Lesson>, c: int, ns: nat) -> Seq<Violation>
    decreases ns,
{
    if ns == 0 {
        Seq::empty()
    } else {
        daily_subjects(p, ls, c, (ns - 1) as nat) + daily_days(
            p,
            ls,
            c,
            ns - 1,
            p.schedule.days as nat,
        )
    }
}

/// Daily-limit violations of classes below `nc`, by class, subject, day.
pub open spec fn daily_classes(p: Problem, ls: Seq<Lesson>, nc: nat) -> Seq<Violation>
    decreases nc,
{
    if nc == 0 {
        Seq::empty()
    } else {
        daily_classes(p, ls, (nc - 1) as nat) + daily_subjects(
            p,
            ls,
            nc - 1,
            p.subjects@.len(),
        )
    }
}

/// The slots of the placed lessons of requirement `i`, in lesson order.
pub open spec fn requirement_slots(p: Problem, ls: Seq<Lesson>, i: int) -> Seq<u32>
    decreases ls.len(),
{
    if ls.len() == 0 {
        Seq::empty()
    } else {
        let rest = requirement_slots(p, ls.drop_last(), i);
        if (of_requirement(p, i))(ls.last()) {
            rest.push(ls.last().slot.0)
        } else {
            rest
        }
    }
}

/// The slots of `s` that fall on day `d`, in order.
pub open spec fn slots_on_day(sch: WeekSchedule, s: Seq<u32>, d: int) -> Seq<u32>
    decreases s.len(),
{
    if s.len() == 0 {
        Seq::empty()
    } else {
        let rest = slots_on_day(sch, s.drop_last(), d);
        if sch.day_of(Slot(s.last())) == d {
            rest.push(s.last())
        } else {
            rest
        }
    }
}

/// Greedy pairing of ascending slots: the first two pair up when they form a
/// double period, otherwise the first is left alone. One violation per slot
/// left alone, in order.
pub open spec fn unpaired(sch: WeekSchedule, s: Seq<u32>, id: RequirementId) -> Seq<Violation>
    decreases s.len(),
{
    if s.len() == 0 {
        Seq::empty()
    } else if s.len() >= 2 && sch.forms_double_pair(Slot(s[0]), Slot(s[1])) {
        unpaired(sch, s.subrange(2, s.len() as int), id)
    } else {
        seq![
            Violation {
                kind: ViolationKind::BrokenDoublePeriod { requirement: id },
                slot: Some(Slot(s[0])),
            },
        ] + unpaired(sch, s.subrange(1, s.len() as int), id)
    }
}

/// The broken-double report of requirement `id` at slot `x`.
pub open spec fn broken_double_at(id: RequirementId, x: u32) -> Violation {
    Violation { kind: ViolationKind::BrokenDoublePeriod { requirement: id }, slot: Some(Slot(x)) }
}

/// Where the chain holding `s[j]` begins: the chain is a run of slots each
/// of which forms a double with the one before it.
pub open spec fn chain_start(sch: WeekSchedule, s: Seq<u32>, j: int) -> int
    decreases j,
{
    if j <= 0 || !sch.forms_double_pair(Slot(s[j - 1]), Slot(s[j])) {
        j
    } else {
        chain_start(sch, s, j - 1)
    }
}

/// `s[j]` is the last slot of its chain.
pub open spec fn ends_chain(sch: WeekSchedule, s: Seq<u32>, j: int) -> bool {
    j + 1 >= s.len() || !sch.forms_double_pair(Slot(s[j]), Slot(s[j + 1]))
}

/// Dropping the first `m` slots, where no chain crosses position `m`, moves
/// every later chain start back by `m`.
proof fn lemma_chain_start_drop(sch: WeekSchedule, s: Seq<u32>, m: int, j: int)
    requires
        1 <= m <= j < s.len(),
        !sch.forms_double_pair(Slot(s[m - 1]), Slot(s[m])) || (m == 2
            && sch.forms_double_pair(Slot(s[0]), Slot(s[1]))),
    ensures
        ({
            let rest = s.subrange(m, s.len() as int);
            let c = chain_start(sch, s, j);
            &&& c >= m ==> chain_start(sch, rest, j - m) == c - m
            &&& c < m ==> c == 0 && chain_start(sch, rest, j - m) == 0
                && sch.forms_double_pair(Slot(s[m - 1]), Slot(s[m]))
        }),
    decreases j,
{
    let rest = s.subrange(m, s.len() as int);
    assert(rest[j - m] == s[j]);
    if j > m {
        assert(rest[j - m - 1] == s[j - 1]);
        if sch.forms_double_pair(Slot(s[j - 1]), Slot(s[j])) {
            lemma_chain_start_drop(sch, s, m, j - 1);
        }
    } else {
        if sch.forms_double_pair(Slot(s[m - 1]), Slot(s[m])) {
            assert(chain_start(sch, s, 1) == chain_start(sch, s, 0));
        }
    }
}

/// Every report of the pairing is a broken double of `id` at one of the
/// slots; distinct slots give distinct reports.
proof fn lemma_unpaired_shape(sch: WeekSchedule, s: Seq<u32>, id: RequirementId)
    ensures
        forall|k: int|
            0 <= k < unpaired(sch, s, id).len() ==> exists|j: int|
                0 <= j < s.len() && #[trigger] unpaired(sch, s, id)[k] == broken_double_at(id, s[j]),
        s.no_duplicates() ==> unpaired(sch, s, id).no_duplicates(),
    decreases s.len(),
{
    let u = unpaired(sch, s, id);
    if s.len() > 0 {
        let pair01 = s.len() >= 2 && sch.forms_double_pair(Slot(s[0]), Slot(s[1]));
        let m: int = if pair01 { 2 } else { 1 };
        let rest = s.subrange(m, s.len() as int);
        lemma_unpaired_shape(sch, rest, id);
        let r = unpaired(sch, rest, id);
        let first = broken_double_at(id, s[0]);
        if pair01 {
            assert(u == r);
        } else {
            assert(u == seq![first] + r);
        }
        assert forall|k: int| 0 <= k < u.len() implies exists|j: int|
            0 <= j < s.len() && #[trigger] u[k] == broken_double_at(id, s[j]) by {
            if !pair01 && k == 0 {
                assert(u[0] == first);
            } else {
                let kk = if pair01 { k } else { k - 1 };
                assert(u[k] == r[kk]);
                let j = choose|j: int| 0 <= j < rest.len() && r[kk] == broken_double_at(id, rest[j]);
                assert(rest[j] == s[j + m]);
            }
        }
        if s.no_duplicates() {
            assert(rest.no_duplicates()) by {
                assert forall|a: int, b: int| 0 <= a < rest.len() && 0 <= b < rest.len() && a != b
                    implies rest[a] != rest[b] by {
                    assert(rest[a] == s[a + m] && rest[b] == s[b + m]);
                }
            }
            if !pair01 {
                assert forall|a: int, b: int| 0 <= a < u.len() && 0 <= b < u.len() && a != b
                    implies u[a] != u[b] by {
                    if a == 0 || b == 0 {
                        let k = if a == 0 { b } else { a };
                        assert(u[k] == r[k - 1]);
                        let j = choose|j: int| 0 <= j < rest.len() && r[k - 1] == broken_double_at(id, rest[j]);
                        assert(rest[j] == s[j + 1]);
                        assert(u[0] == first);
                    } else {
                        assert(u[a] == r[a - 1] && u[b] == r[b - 1]);
                    }
                }
            }
        }
    }
}

/// Whether the pairing reports slot `s[j]`: exactly when it ends its chain
/// at an even distance from the chain's start.
proof fn lemma_unpaired_at(sch: WeekSchedule, s: Seq<u32>, id: RequirementId, j: int)
    requires
        s.no_duplicates(),
        0 <= j < s.len(),
    ensures
        unpaired(sch, s, id).contains(broken_double_at(id, s[j])) <==> ends_chain(sch, s, j) && (j
            - chain_start(sch, s, j)) % 2 == 0,
    decreases s.len(),
{
    let u = unpaired(sch, s, id);
    let pair01 = s.len() >= 2 && sch.forms_double_pair(Slot(s[0]), Slot(s[1]));
    let m: int = if pair01 { 2 } else { 1 };
    let rest = s.subrange(m, s.len() as int);
    lemma_unpaired_shape(sch, rest, id);
    let r = unpaired(sch, rest, id);
    let first = broken_double_at(id, s[0]);
    let x = broken_double_at(id, s[j]);
    if pair01 {
        assert(u == r);
    } else {
        assert(u == seq![first] + r);
    }
    assert(rest.no_duplicates()) by {
        assert forall|a: int, b: int| 0 <= a < rest.len() && 0 <= b < rest.len() && a != b
            implies rest[a] != rest[b] by {
            assert(rest[a] == s[a + m] && rest[b] == s[b + m]);
        }
    }
    if j < m {
        if r.contains(x) {
            let k = choose|k: int| 0 <= k < r.len() && r[k] == x;
            let jj = choose|jj: int| 0 <= jj < rest.len() && r[k] == broken_double_at(id, rest[jj]);
            assert(rest[jj] == s[jj + m]);
        }
        if pair01 {
            assert(chain_start(sch, s, 0) == 0);
            assert(chain_start(sch, s, 1) == chain_start(sch, s, 0));
            if j == 0 {
                assert(!ends_chain(sch, s, 0));
            }
        } else {
            assert(u[0] == first);
            assert(chain_start(sch, s, 0) == 0);
            assert(ends_chain(sch, s, 0));
        }
    } else {
        lemma_unpaired_at(sch, rest, id, j - m);
        lemma_chain_start_drop(sch, s, m, j);
        let c = chain_start(sch, s, j);
        if c < m {
            assert(m == 2);
            assert((j - m - 0) % 2 == (j - c) % 2);
        } else {
            assert((j - m - (c - m)) == j - c);
        }
        assert(rest[j - m] == s[j]);
        if j + 1 < s.len() {
            assert(rest[j - m + 1] == s[j + 1]);
        }
        assert(ends_chain(sch, s, j) == ends_chain(sch, rest, j - m));
        if !pair01 {
            assert(x != first);
            if u.contains(x) {
                let k = choose|k: int| 0 <= k < u.len() && u[k] == x;
                assert(k != 0);
                assert(u[k] == r[k - 1]);
            }
            if r.contains(x) {
                let k = choose|k: int| 0 <= k < r.len() && r[k] == x;
                assert(u[k + 1] == r[k]);
            }
        }
    }
}

/// Which slots of a day the pairing reports as broken doubles: the slots run
/// in chains, each slot forming a double with the one before it; within a
/// chain the slots pair up from its start, so a slot is reported exactly when
/// it ends its chain at an even distance from the chain's start. Every report
/// is a broken double of `id` at one of the slots, and (the slots being
/// distinct) no slot is reported twice.
pub proof fn lemma_unpaired_reports(sch: WeekSchedule, s: Seq<u32>, id: RequirementId)
    ensures
        forall|k: int|
            0 <= k < unpaired(sch, s, id).len() ==> exists|j: int|
                0 <= j < s.len() && #[trigger] unpaired(sch, s, id)[k] == broken_double_at(id, s[j]),
        s.no_duplicates() ==> unpaired(sch, s, id).no_duplicates(),
        s.no_duplicates() ==> forall|j: int|
            0 <= j < s.len() ==> (unpaired(sch, s, id).contains(
                #[trigger] broken_double_at(id, s[j]),
            ) <==> ends_chain(sch, s, j) && (j - chain_start(sch, s, j)) % 2 == 0),
{
    lemma_unpaired_shape(sch, s, id);
    if s.no_duplicates() {
        assert forall|j: int| 0 <= j < s.len() implies (unpaired(sch, s, id).contains(
            #[trigger] broken_double_at(id, s[j]),
        ) <==> ends_chain(sch, s, j) && (j - chain_start(sch, s, j)) % 2 == 0) by {
            lemma_unpaired_at(sch, s, id, j);
        }
    }
}

/// Broken-double violations of requirement `i` over days below `nd`.
pub open spec fn double_days(p: Problem, ls: Seq<Lesson>, i: int, nd: nat) -> Seq<Violation>
    decreases nd,
{
    if nd == 0 {
        Seq::empty()
    } else {
        double_days(p, ls, i, (nd - 1) as nat) + unpaired(
            p.schedule,
            ascending(slots_on_day(p.schedule, requirement_slots(p, ls, i), nd - 1)),
            p.requirements@[i].id,
        )
    }
}

/// Broken-double violations of the requirements below `n`.
pub open spec fn double_phase(p: Problem, ls: Seq<Lesson>, n: nat) -> Seq<Violation>
    decreases n,
{
    if n == 0 {
        Seq::empty()
    } else {
        double_phase(p, ls, (n - 1) as nat) + if p.requirements@[n - 1].double_period {
            double_days(p, ls, n - 1, p.schedule.days as nat)
        } else {
            Seq::empty()
        }
    }
}

/// The coverage violation of requirement `i`, if any.
pub open spec fn coverage_violation(p: Problem, ls: Seq<Lesson>, i: int) -> Seq<Violation> {
    let r = p.requirements@[i];
    let actual = count_lessons(ls, of_requirement(p, i));
    violation_if(
        actual != r.lessons_per_week,
        Violation {
            kind: ViolationKind::RequirementCoverage {
                requirement: r.id,
                expected: r.lessons_per_week as u32,
                actual: actual as u32,
            },
            slot: None,
        },
    )
}

/// Coverage violations of the requirements below `n`.
pub open spec fn coverage_phase(p: Problem, ls: Seq<Lesson>, n: nat) -> Seq<Violation>
    decreases n,
{
    if n == 0 {
        Seq::empty()
    } else {
        coverage_phase(p, ls, (n - 1) as nat) + coverage_violation(p, ls, n - 1)
    }
}

/// The integrity errors, each as a violation.
pub open spec fn invalid_problem_violations(errs: Seq<IntegrityError>) -> Seq<Violation> {
    errs.map_values(|e: IntegrityError| Violation { kind: ViolationKind::InvalidProblem(e), slot: None })
}

/// Everything the validator reports: the integrity errors alone when there
/// are any; otherwise the per-lesson violations in lesson order, then the
/// daily limits, then the broken doubles, then the coverage.
pub open spec fn violations_of(p: Problem, tt: Timetable) -> Seq<Violation> {
    let errs = integrity_errors(p);
    let ls = tt.lessons@;
    if errs.len() > 0 {
        invalid_problem_violations(errs)
    } else {
        lesson_phase(p, ls) + daily_classes(p, ls, p.classes@.len()) + double_phase(
            p,
            ls,
            p.requirements@.len(),
        ) + coverage_phase(p, ls, p.requirements@.len())
    }
}

// ---------------------------------------------------------------------------
// Lemmas.
// ---------------------------------------------------------------------------

pub(crate) proof fn lemma_count_push(ls: Seq<Lesson>, l: Lesson)
    ensures
        forall|f: spec_fn(Lesson) -> bool| #[trigger]
            count_lessons(ls.push(l), f) == count_lessons(ls, f) + if f(l) {
                1nat
            } else {
                0nat
            },
{
    assert(ls.push(l).drop_last() =~= ls);
}

pub(crate) proof fn lemma_count_bound(ls: Seq<Lesson>, f: spec_fn(Lesson) -> bool)
    ensures
        count_lessons(ls, f) <= ls.len(),
    decreases ls.len(),
{
    if ls.len() > 0 {
        lemma_count_bound(ls.drop_last(), f);
    }
}

/// Position of (c, s, d) in a row-major table of `ns` subjects and `nd` days.
pub open spec fn flat_index(c: int, s: int, d: int, ns: int, nd: int) -> int {
    (c * ns + s) * nd + d
}

pub(crate) proof fn lemma_flat_index(c: int, s: int, d: int, nc: int, ns: int, nd: int)
    requires
        0 <= c < nc,
        0 <= s < ns,
        0 <= d < nd,
    ensures
        0 <= flat_index(c, s, d, ns, nd) < nc * ns * nd,
        flat_index(c, s, d, ns, nd) / nd == c * ns + s,
        flat_index(c, s, d, ns, nd) % nd == d,
        (c * ns + s) / ns == c,
        (c * ns + s) % ns == s,
{
    assert(0 <= c * ns + s < nc * ns) by (nonlinear_arith)
        requires
            0 <= c < nc,
            0 <= s < ns,
    ;
    assert(0 <= (c * ns + s) * nd + d < (nc * ns) * nd) by (nonlinear_arith)
        requires
            0 <= c * ns + s < nc * ns,
            0 <= d < nd,
    ;
    assert(nc * ns * nd == (nc * ns) * nd) by (nonlinear_arith);
    vstd::arithmetic::div_mod::lemma_fundamental_div_mod_converse(
        flat_index(c, s, d, ns, nd),
        nd,
        c * ns + s,
        d,
    );
    vstd::arithmetic::div_mod::lemma_fundamental_div_mod_converse(c * ns + s, ns, c, s);
}

pub(crate) proof fn lemma_flat_index_injective(
    c1: int,
    s1: int,
    d1: int,
    c2: int,
    s2: int,
    d2: int,
    nc: int,
    ns: int,
    nd: int,
)
    requires
        0 <= c1 < nc,
        0 <= s1 < ns,
        0 <= d1 < nd,
        0 <= c2 < nc,
        0 <= s2 < ns,
        0 <= d2 < nd,
        flat_index(c1, s1, d1, ns, nd) == flat_index(c2, s2, d2, ns, nd),
    ensures
        c1 == c2 && s1 == s2 && d1 == d2,
{
    lemma_flat_index(c1, s1, d1, nc, ns, nd);
    lemma_flat_index(c2, s2, d2, nc, ns, nd);
}

/// The day of a slot within the week is a day of the week.
proof fn lemma_day_in_week(sch: WeekSchedule, slot: Slot)
    requires
        sch.is_valid(),
        slot.0 < sch.num_slots(),
    ensures
        sch.day_of(slot) < sch.days,
        sch.day_of(slot) as int == slot.0 as int / sch.periods_per_day as int,
{
    let p = sch.periods_per_day as int;
    let v = slot.0 as int;
    assert(v / p < sch.days) by (nonlinear_arith)
        requires
            0 <= v < sch.days * p,
            p >= 1,
    ;
}

// ---------------------------------------------------------------------------
// The validator.
// ---------------------------------------------------------------------------

/// `n` all-zero bitmaps of `len` bits.
pub(crate) fn blank_bitmaps(n: usize, len: usize) -> (v: Vec<Bitmap>)
    ensures
        v@.len() == n,
        forall|i: int| 0 <= i < n ==> (#[trigger] v@[i])@ == Seq::new(len as nat, |j: int| false),
{
    let mut v: Vec<Bitmap> = Vec::new();
    let mut i: usize = 0;
    while i < n
        invariant
            i <= n,
            v@.len() == i,
            forall|k: int| 0 <= k < i ==> (#[trigger] v@[k])@ == Seq::new(len as nat, |j: int| false),
        decreases n - i,
    {
        v.push(Bitmap::new(len));
        i = i + 1;
    }
    v
}

/// The busy and reported bitmaps of `n` entities agree with `load`: a slot is
/// busy once one lesson is there, and reported once a second one is.
spec fn occupancy(
    busy: Seq<Bitmap>,
    reported: Seq<Bitmap>,
    n: nat,
    nslots: nat,
    load: spec_fn(int, int) -> nat,
) -> bool {
    &&& busy.len() == n
    &&& reported.len() == n
    &&& forall|e: int| 0 <= e < n ==> (#[trigger] busy[e])@.len() == nslots
    &&& forall|e: int| 0 <= e < n ==> (#[trigger] reported[e])@.len() == nslots
    &&& forall|e: int, s: int|
        0 <= e < n && 0 <= s < nslots ==> ((#[trigger] busy[e]@[s]) <==> load(e, s) >= 1)
    &&& forall|e: int, s: int|
        0 <= e < n && 0 <= s < nslots ==> ((#[trigger] reported[e]@[s]) <==> load(e, s) >= 2)
}

/// Marks slot `s` busy for entity `e`; returns whether this is the first
/// clash there (busy already, not yet reported), and marks it reported then.
fn mark_busy(
    busy: &mut Vec<Bitmap>,
    reported: &mut Vec<Bitmap>,
    e: usize,
    s: usize,
    Ghost(n): Ghost<nat>,
    Ghost(nslots): Ghost<nat>,
    Ghost(load): Ghost<spec_fn(int, int) -> nat>,
    Ghost(load2): Ghost<spec_fn(int, int) -> nat>,
) -> (clash: bool)
    requires
        e < n,
        s < nslots,
        occupancy(old(busy)@, old(reported)@, n, nslots, load),
        forall|e2: int, s2: int|
            #[trigger] load2(e2, s2) == load(e2, s2) + if e2 == e && s2 == s {
                1nat
            } else {
                0nat
            },
    ensures
        clash == (load(e as int, s as int) == 1),
        occupancy(final(busy)@, final(reported)@, n, nslots, load2),
{
    let ghost ob = busy@;
    let ghost orp = reported@;
    let was_busy = busy[e].set(s);
    let clash = if was_busy {
        !reported[e].set(s)
    } else {
        false
    };
    proof {
        assert forall|e2: int, s2: int|
            0 <= e2 < n && 0 <= s2 < nslots implies ((#[trigger] busy@[e2]@[s2]) <==> load2(e2, s2)
            >= 1) by {
            assert(load2(e2, s2) == load(e2, s2) + if e2 == e && s2 == s {
                1nat
            } else {
                0nat
            });
            assert(ob[e2]@[s2] <==> load(e2, s2) >= 1);
        }
        assert forall|e2: int, s2: int|
            0 <= e2 < n && 0 <= s2 < nslots implies ((#[trigger] reported@[e2]@[s2]) <==> load2(
                e2,
                s2,
            ) >= 2) by {
            assert(load2(e2, s2) == load(e2, s2) + if e2 == e && s2 == s {
                1nat
            } else {
                0nat
            });
            assert(orp[e2]@[s2] <==> load(e2, s2) >= 2);
            assert(ob[e2]@[s2] <==> load(e2, s2) >= 1);
        }
        assert(ob[e as int]@[s as int] <==> load(e as int, s as int) >= 1);
        assert(orp[e as int]@[s as int] <==> load(e as int, s as int) >= 2);
    }
    clash
}


/// Per-entity loads of a lesson prefix: how many placed lessons each teacher,
/// class or room has in each slot.
spec fn teacher_loads(p: Problem, ls: Seq<Lesson>) -> spec_fn(int, int) -> nat {
    |t: int, s: int| count_lessons(ls, teacher_at(p, t, s))
}

spec fn class_loads(p: Problem, ls: Seq<Lesson>) -> spec_fn(int, int) -> nat {
    |c: int, s: int| count_lessons(ls, class_at(p, c, s))
}

spec fn room_loads(p: Problem, ls: Seq<Lesson>) -> spec_fn(int, int) -> nat {
    |r: int, s: int| count_lessons(ls, room_at(p, r, s))
}

/// Running tallies of the lesson scan.
struct Tally {
    teacher_busy: Vec<Bitmap>,
    teacher_reported: Vec<Bitmap>,
    class_busy: Vec<Bitmap>,
    class_reported: Vec<Bitmap>,
    room_busy: Vec<Bitmap>,
    room_reported: Vec<Bitmap>,
    /// (class, subject, day) -> lessons, row-major.
    daily: Vec<u32>,
    /// requirement -> placed lessons.
    covered: Vec<u32>,
    /// requirement -> slots of its placed lessons, in lesson order.
    req_slots: Vec<Vec<u32>>,
}

/// The daily table holds, for each (class, subject, day), the number of
/// placed lessons of `ls` there.
spec fn daily_table(p: Problem, ls: Seq<Lesson>, daily: Seq<u32>) -> bool {
    let ns = p.subjects@.len() as int;
    let nd = p.schedule.days as int;
    &&& daily.len() == p.classes@.len() * ns * nd
    &&& forall|c: int, subj: int, d: int|
        0 <= c < p.classes@.len() && 0 <= subj < ns && 0 <= d < nd ==> #[trigger] daily[flat_index(
            c,
            subj,
            d,
            ns,
            nd,
        )] == count_lessons(ls, subject_on_day(p, c, subj, d))
}

/// The tallies agree with the lessons `ls` scanned so far.
spec fn tally_matches(t: Tally, p: Problem, ls: Seq<Lesson>) -> bool {
    let nslots = p.schedule.num_slots();
    &&& occupancy(
        t.teacher_busy@,
        t.teacher_reported@,
        p.teachers@.len(),
        nslots,
        teacher_loads(p, ls),
    )
    &&& occupancy(t.class_busy@, t.class_reported@, p.classes@.len(), nslots, class_loads(p, ls))
    &&& occupancy(t.room_busy@, t.room_reported@, p.rooms@.len(), nslots, room_loads(p, ls))
    &&& daily_table(p, ls, t.daily@)
    &&& t.covered@.len() == p.requirements@.len()
    &&& forall|i: int|
        0 <= i < p.requirements@.len() ==> #[trigger] t.covered@[i] == count_lessons(
            ls,
            of_requirement(p, i),
        )
    &&& t.req_slots@.len() == p.requirements@.len()
    &&& forall|i: int|
        0 <= i < p.requirements@.len() ==> (#[trigger] t.req_slots@[i])@ == requirement_slots(
            p,
            ls,
            i,
        )
}

/// Tallies for no lessons at all.
fn new_tally(p: &Problem) -> (t: Tally)
    requires
        p.is_well_formed(),
        p.classes@.len() * p.subjects@.len() * p.schedule.days <= usize::MAX,
    ensures
        tally_matches(t, *p, Seq::empty()),
{
    let nslots = p.slot_count();
    let ndays = p.schedule.days as usize;
    let nsubjects = p.subjects.len();
    let nclasses = p.classes.len();
    proof {
        assert(nclasses * nsubjects <= usize::MAX) by (nonlinear_arith)
            requires
                nclasses * nsubjects * ndays <= usize::MAX,
                ndays >= 1,
        ;
    }
    let ncells = nclasses * nsubjects * ndays;
    let mut daily: Vec<u32> = Vec::new();
    let mut k: usize = 0;
    while k < ncells
        invariant
            k <= ncells,
            daily@.len() == k,
            forall|j: int| 0 <= j < k ==> daily@[j] == 0u32,
        decreases ncells - k,
    {
        daily.push(0u32);
        k = k + 1;
    }
    let nreqs = p.requirements.len();
    let mut covered: Vec<u32> = Vec::new();
    let mut req_slots: Vec<Vec<u32>> = Vec::new();
    let mut k: usize = 0;
    while k < nreqs
        invariant
            k <= nreqs,
            covered@.len() == k,
            req_slots@.len() == k,
            forall|j: int| 0 <= j < k ==> covered@[j] == 0u32,
            forall|j: int| 0 <= j < k ==> (#[trigger] req_slots@[j])@ == Seq::<u32>::empty(),
        decreases nreqs - k,
    {
        covered.push(0u32);
        req_slots.push(Vec::new());
        k = k + 1;
    }
    let t = Tally {
        teacher_busy: blank_bitmaps(p.teachers.len(), nslots),
        teacher_reported: blank_bitmaps(p.teachers.len(), nslots),
        class_busy: blank_bitmaps(nclasses, nslots),
        class_reported: blank_bitmaps(nclasses, nslots),
        room_busy: blank_bitmaps(p.rooms.len(), nslots),
        room_reported: blank_bitmaps(p.rooms.len(), nslots),
        daily,
        covered,
        req_slots,
    };
    proof {
        let ns = nsubjects as int;
        let nd = ndays as int;
        assert forall|c: int, subj: int, d: int|
            0 <= c < nclasses && 0 <= subj < ns && 0 <= d < nd implies #[trigger] t.daily@[flat_index(
                c,
                subj,
                d,
                ns,
                nd,
            )] == count_lessons(Seq::empty(), subject_on_day(*p, c, subj, d)) by {
            lemma_flat_index(c, subj, d, nclasses as int, ns, nd);
        }
    }
    t
}

/// A lesson that is not placed changes no tally.
proof fn lemma_tally_skip(t: Tally, p: Problem, ls: Seq<Lesson>, l: Lesson)
    requires
        tally_matches(t, p, ls),
        !is_placed(p, l),
    ensures
        tally_matches(t, p, ls.push(l)),
{
    lemma_count_push(ls, l);
    assert(teacher_loads(p, ls.push(l)) =~= teacher_loads(p, ls));
    assert(class_loads(p, ls.push(l)) =~= class_loads(p, ls));
    assert(room_loads(p, ls.push(l)) =~= room_loads(p, ls));
    assert(ls.push(l).drop_last() =~= ls);
    let ns = p.subjects@.len() as int;
    let nd = p.schedule.days as int;
    assert forall|c: int, subj: int, d: int|
        0 <= c < p.classes@.len() && 0 <= subj < ns && 0 <= d < nd implies #[trigger] t.daily@[flat_index(
            c,
            subj,
            d,
            ns,
            nd,
        )] == count_lessons(ls.push(l), subject_on_day(p, c, subj, d)) by {
        assert(t.daily@[flat_index(c, subj, d, ns, nd)] == count_lessons(
            ls,
            subject_on_day(p, c, subj, d),
        ));
    }
    assert forall|i: int| 0 <= i < p.requirements@.len() implies (#[trigger] t.req_slots@[i])@
        == requirement_slots(p, ls.push(l), i) by {
        assert(t.req_slots@[i]@ == requirement_slots(p, ls, i));
    }
}


/// Records a placed lesson: appends what it breaks and updates the tallies.
fn record_lesson(
    p: &Problem,
    t: &mut Tally,
    l: Lesson,
    violations: &mut Vec<Violation>,
    Ghost(ls): Ghost<Seq<Lesson>>,
)
    requires
        p.is_well_formed(),
        is_placed(*p, l),
        tally_matches(*old(t), *p, ls),
        ls.len() < u32::MAX,
    ensures
        tally_matches(*final(t), *p, ls.push(l)),
        final(violations)@ == old(violations)@ + lesson_violations(*p, ls, l),
{
    let ghost p0 = *p;
    let ghost ls2 = ls.push(l);
    let ghost old_t = *t;
    let ghost v0 = violations@;
    proof {
        lemma_count_push(ls, l);
        assert(ls2.drop_last() =~= ls);
    }
    let req = &p.requirements[l.requirement.idx()];
    let s = l.slot.0 as usize;
    let nslots = p.slot_count();
    let ri = req.id.idx();
    let c = req.class.idx();
    let tch = req.teacher.idx();
    let subj = req.subject.idx();
    let rm = l.room.idx();
    proof {
        assert(p.requirements@[l.requirement.0 as int] == *req);
        assert(ri == l.requirement.0);
    }

    // Coverage and the slots of the requirement.
    let cov = t.covered[ri];
    proof {
        lemma_count_bound(ls, of_requirement(p0, ri as int));
    }
    t.covered[ri] = cov + 1;
    t.req_slots[ri].push(l.slot.0);

    // Room prescribed by the requirement.
    let expected = req.room_or_home(&p.classes[c]);
    if l.room != expected {
        violations.push(
            Violation {
                kind: ViolationKind::RoomMismatch { requirement: req.id, expected, actual: l.room },
                slot: Some(l.slot),
            },
        );
    }
    let ghost v1 = violations@;

    // Teacher, class and room clashes.
    if mark_busy(
        &mut t.teacher_busy,
        &mut t.teacher_reported,
        tch,
        s,
        Ghost(p0.teachers@.len()),
        Ghost(nslots as nat),
        Ghost(teacher_loads(p0, ls)),
        Ghost(teacher_loads(p0, ls2)),
    ) {
        violations.push(
            Violation { kind: ViolationKind::TeacherConflict { teacher: req.teacher }, slot: Some(l.slot) },
        );
    }
    let ghost v2 = violations@;
    if mark_busy(
        &mut t.class_busy,
        &mut t.class_reported,
        c,
        s,
        Ghost(p0.classes@.len()),
        Ghost(nslots as nat),
        Ghost(class_loads(p0, ls)),
        Ghost(class_loads(p0, ls2)),
    ) {
        violations.push(
            Violation { kind: ViolationKind::ClassConflict { class: req.class }, slot: Some(l.slot) },
        );
    }
    let ghost v3 = violations@;
    if mark_busy(
        &mut t.room_busy,
        &mut t.room_reported,
        rm,
        s,
        Ghost(p0.rooms@.len()),
        Ghost(nslots as nat),
        Ghost(room_loads(p0, ls)),
        Ghost(room_loads(p0, ls2)),
    ) {
        violations.push(
            Violation { kind: ViolationKind::RoomConflict { room: l.room }, slot: Some(l.slot) },
        );
    }
    let ghost v4 = violations@;

    // The teacher's unavailable slots.
    if p.teachers[tch].unavailable.get(s) {
        violations.push(
            Violation {
                kind: ViolationKind::TeacherUnavailable { teacher: req.teacher },
                slot: Some(l.slot),
            },
        );
    }

    // Lessons of this subject for the class on this day.
    let ndays = p.schedule.days as usize;
    let nsubjects = p.subjects.len();
    let day = p.schedule.day(l.slot) as usize;
    proof {
        lemma_day_in_week(p0.schedule, l.slot);
        lemma_flat_index(
            c as int,
            subj as int,
            day as int,
            p0.classes@.len() as int,
            nsubjects as int,
            ndays as int,
        );
        assert(p0.classes@.len() * nsubjects * ndays == p0.classes@.len() * (nsubjects as int)
            * (ndays as int));
        let fi = flat_index(c as int, subj as int, day as int, nsubjects as int, ndays as int);
        assert(t.daily@.len() == t.daily.len());
        assert(fi < t.daily@.len());
        assert(c * nsubjects <= c * nsubjects + subj <= (c * nsubjects + subj) * ndays <= fi)
            by (nonlinear_arith)
            requires
                ndays >= 1,
                fi == (c * nsubjects + subj) * ndays + day,
                day >= 0,
        ;
    }
    let row = c * nsubjects + subj;
    let idx = row * ndays + day;
    let cnt = t.daily[idx];
    proof {
        lemma_count_bound(ls, subject_on_day(p0, c as int, subj as int, day as int));
    }
    t.daily[idx] = cnt + 1;

    proof {
        let ns = nsubjects as int;
        let nd = ndays as int;
        assert forall|c2: int, s2: int, d2: int|
            0 <= c2 < p0.classes@.len() && 0 <= s2 < ns && 0 <= d2 < nd implies #[trigger] t.daily@[flat_index(
                c2,
                s2,
                d2,
                ns,
                nd,
            )] == count_lessons(ls2, subject_on_day(p0, c2, s2, d2)) by {
            lemma_flat_index(c2, s2, d2, p0.classes@.len() as int, ns, nd);
            if flat_index(c2, s2, d2, ns, nd) == idx as int {
                lemma_flat_index_injective(
                    c2,
                    s2,
                    d2,
                    c as int,
                    subj as int,
                    day as int,
                    p0.classes@.len() as int,
                    ns,
                    nd,
                );
            } else {
                assert(old_t.daily@[flat_index(c2, s2, d2, ns, nd)] == count_lessons(
                    ls,
                    subject_on_day(p0, c2, s2, d2),
                ));
            }
        }
        assert forall|i: int| 0 <= i < p0.requirements@.len() implies #[trigger] t.covered@[i]
            == count_lessons(ls2, of_requirement(p0, i)) by {
            assert(old_t.covered@[i] == count_lessons(ls, of_requirement(p0, i)));
        }
        assert forall|i: int| 0 <= i < p0.requirements@.len() implies (#[trigger] t.req_slots@[i])@
            == requirement_slots(p0, ls2, i) by {
            assert(old_t.req_slots@[i]@ == requirement_slots(p0, ls, i));
        }
        assert(violations@ =~= v0 + lesson_violations(p0, ls, l));
    }
}


/// Scans the lessons in order: appends what each one breaks and returns the
/// tallies the later checks need.
fn scan_lessons(p: &Problem, tt: &Timetable, violations: &mut Vec<Violation>) -> (t: Tally)
    requires
        p.is_well_formed(),
        tt.lessons@.len() <= u32::MAX,
        p.classes@.len() * p.subjects@.len() * p.schedule.days <= usize::MAX,
    ensures
        tally_matches(t, *p, tt.lessons@),
        final(violations)@ == old(violations)@ + lesson_phase(*p, tt.lessons@),
{
    let ghost ls = tt.lessons@;
    let ghost v0 = violations@;
    let mut t = new_tally(p);
    let nslots = p.slot_count();
    let mut k: usize = 0;
    proof {
        assert(ls.take(0) =~= Seq::<Lesson>::empty());
    }
    while k < tt.lessons.len()
        invariant
            p.is_well_formed(),
            ls == tt.lessons@,
            ls.len() <= u32::MAX,
            nslots == p.schedule.num_slots(),
            k <= ls.len(),
            tally_matches(t, *p, ls.take(k as int)),
            violations@ == v0 + lesson_phase(*p, ls.take(k as int)),
        decreases ls.len() - k,
    {
        let l = tt.lessons[k];
        let ghost pre = ls.take(k as int);
        proof {
            assert(ls.take(k + 1) =~= pre.push(l));
            assert(pre.push(l).drop_last() =~= pre);
        }
        match p.requirement(l.requirement) {
            None => {
                violations.push(
                    Violation {
                        kind: ViolationKind::UnknownRequirement { id: l.requirement.0 },
                        slot: None,
                    },
                );
                proof {
                    lemma_tally_skip(t, *p, pre, l);
                }
            },
            Some(_req) => {
                let s = l.slot.0 as usize;
                if s >= nslots {
                    violations.push(
                        Violation {
                            kind: ViolationKind::SlotOutOfRange { slot: l.slot.0 },
                            slot: None,
                        },
                    );
                    proof {
                        lemma_tally_skip(t, *p, pre, l);
                    }
                } else if l.room.idx() >= p.rooms.len() {
                    violations.push(
                        Violation {
                            kind: ViolationKind::UnknownRoom { id: l.room.0 },
                            slot: Some(l.slot),
                        },
                    );
                    proof {
                        lemma_tally_skip(t, *p, pre, l);
                    }
                } else {
                    record_lesson(p, &mut t, l, violations, Ghost(pre));
                }
            },
        }
        proof {
            assert(violations@ =~= v0 + lesson_phase(*p, ls.take(k + 1)));
        }
        k = k + 1;
    }
    proof {
        assert(ls.take(k as int) =~= ls);
    }
    t
}

/// Appends the daily-limit violations, by class, subject and day.
fn daily_limits(
    p: &Problem,
    daily: &Vec<u32>,
    violations: &mut Vec<Violation>,
    Ghost(ls): Ghost<Seq<Lesson>>,
)
    requires
        p.is_well_formed(),
        daily_table(*p, ls, daily@),
        ls.len() <= u32::MAX,
    ensures
        final(violations)@ == old(violations)@ + daily_classes(*p, ls, p.classes@.len()),
{
    let ghost p0 = *p;
    let ghost v0 = violations@;
    let nclasses = p.classes.len();
    let nsubjects = p.subjects.len();
    let ndays = p.schedule.days as usize;
    let mut class: usize = 0;
    while class < nclasses
        invariant
            p0 == *p,
            p.is_well_formed(),
            daily_table(*p, ls, daily@),
            nclasses == p.classes@.len(),
            nsubjects == p.subjects@.len(),
            ndays == p.schedule.days,
            class <= nclasses,
            violations@ == v0 + daily_classes(p0, ls, class as nat),
        decreases nclasses - class,
    {
        let ghost vc = violations@;
        let mut subject: usize = 0;
        while subject < nsubjects
            invariant
                p0 == *p,
                p.is_well_formed(),
                daily_table(*p, ls, daily@),
                nclasses == p.classes@.len(),
                nsubjects == p.subjects@.len(),
                ndays == p.schedule.days,
                class < nclasses,
                subject <= nsubjects,
                violations@ == vc + daily_subjects(p0, ls, class as int, subject as nat),
            decreases nsubjects - subject,
        {
            let ghost vs = violations@;
            let mut day: usize = 0;
            while day < ndays
                invariant
                    p0 == *p,
                    p.is_well_formed(),
                    daily_table(*p, ls, daily@),
                    nclasses == p.classes@.len(),
                    nsubjects == p.subjects@.len(),
                    ndays == p.schedule.days,
                    class < nclasses,
                    subject < nsubjects,
                    day <= ndays,
                    violations@ == vs + daily_days(
                        p0,
                        ls,
                        class as int,
                        subject as int,
                        day as nat,
                    ),
                decreases ndays - day,
            {
                proof {
                    lemma_flat_index(
                        class as int,
                        subject as int,
                        day as int,
                        nclasses as int,
                        nsubjects as int,
                        ndays as int,
                    );
                    let fi = flat_index(
                        class as int,
                        subject as int,
                        day as int,
                        nsubjects as int,
                        ndays as int,
                    );
                    assert(class * nsubjects <= class * nsubjects + subject <= (class * nsubjects
                        + subject) * ndays <= fi) by (nonlinear_arith)
                        requires
                            ndays >= 1,
                            fi == (class * nsubjects + subject) * ndays + day,
                            day >= 0,
                    ;
                    lemma_count_bound(
                        ls,
                        subject_on_day(p0, class as int, subject as int, day as int),
                    );
                    assert(daily@.len() == daily.len());
                }
                let row = class * nsubjects + subject;
                let count = daily[row * ndays + day];
                if count > DAILY_SUBJECT_LIMIT {
                    violations.push(
                        Violation {
                            kind: ViolationKind::SubjectDailyLimit {
                                class: ClassId(class as u32),
                                subject: SubjectId(subject as u32),
                                count,
                            },
                            slot: Some(p.schedule.slot_of(day as u8, 0)),
                        },
                    );
                }
                proof {
                    assert(violations@ =~= vs + daily_days(
                        p0,
                        ls,
                        class as int,
                        subject as int,
                        (day + 1) as nat,
                    ));
                }
                day = day + 1;
            }
            proof {
                assert(violations@ =~= vc + daily_subjects(
                    p0,
                    ls,
                    class as int,
                    (subject + 1) as nat,
                ));
            }
            subject = subject + 1;
        }
        proof {
            assert(violations@ =~= v0 + daily_classes(p0, ls, (class + 1) as nat));
        }
        class = class + 1;
    }
}

/// Appends the coverage violations, by requirement.
fn coverage(
    p: &Problem,
    covered: &Vec<u32>,
    violations: &mut Vec<Violation>,
    Ghost(ls): Ghost<Seq<Lesson>>,
)
    requires
        p.is_well_formed(),
        covered@.len() == p.requirements@.len(),
        forall|i: int|
            0 <= i < p.requirements@.len() ==> #[trigger] covered@[i] == count_lessons(
                ls,
                of_requirement(*p, i),
            ),
    ensures
        final(violations)@ == old(violations)@ + coverage_phase(*p, ls, p.requirements@.len()),
{
    let ghost v0 = violations@;
    let mut i: usize = 0;
    while i < p.requirements.len()
        invariant
            p.is_well_formed(),
            covered@.len() == p.requirements@.len(),
            forall|i: int|
                0 <= i < p.requirements@.len() ==> #[trigger] covered@[i] == count_lessons(
                    ls,
                    of_requirement(*p, i),
                ),
            i <= p.requirements@.len(),
            violations@ == v0 + coverage_phase(*p, ls, i as nat),
        decreases p.requirements@.len() - i,
    {
        let req = &p.requirements[i];
        let actual = covered[req.id.idx()];
        let expected = req.lessons_per_week as u32;
        if actual != expected {
            violations.push(
                Violation {
                    kind: ViolationKind::RequirementCoverage {
                        requirement: req.id,
                        expected,
                        actual,
                    },
                    slot: None,
                },
            );
        }
        proof {
            assert(violations@ =~= v0 + coverage_phase(*p, ls, (i + 1) as nat));
        }
        i = i + 1;
    }
}


/// The slots of placed lessons lie within the week.
proof fn lemma_requirement_slots_in_week(p: Problem, ls: Seq<Lesson>, i: int)
    ensures
        forall|j: int|
            0 <= j < requirement_slots(p, ls, i).len() ==> #[trigger] requirement_slots(
                p,
                ls,
                i,
            )[j] < p.schedule.num_slots(),
    decreases ls.len(),
{
    if ls.len() > 0 {
        lemma_requirement_slots_in_week(p, ls.drop_last(), i);
        let rest = requirement_slots(p, ls.drop_last(), i);
        let all = requirement_slots(p, ls, i);
        assert forall|j: int| 0 <= j < all.len() implies #[trigger] all[j]
            < p.schedule.num_slots() by {
            if j < rest.len() {
                assert(all[j] == rest[j]);
            }
        }
    }
}

/// Appends the broken-double violations of the slots `ds` (ascending) of the
/// requirement with id `id`.
fn push_unpaired(
    sch: &WeekSchedule,
    ds: &Vec<u32>,
    id: RequirementId,
    violations: &mut Vec<Violation>,
)
    requires
        sch.periods_per_day >= 1,
    ensures
        final(violations)@ == old(violations)@ + unpaired(*sch, ds@, id),
{
    let ghost v0 = violations@;
    let n = ds.len();
    let mut j: usize = 0;
    proof {
        assert(ds@.subrange(0, n as int) =~= ds@);
    }
    while j < n
        invariant
            sch.periods_per_day >= 1,
            n == ds@.len(),
            j <= n,
            v0 + unpaired(*sch, ds@, id) == violations@ + unpaired(
                *sch,
                ds@.subrange(j as int, n as int),
                id,
            ),
        decreases n - j,
    {
        let ghost rest = ds@.subrange(j as int, n as int);
        let paired = j + 1 < n && sch.is_double_pair(Slot(ds[j]), Slot(ds[j + 1]));
        if paired {
            proof {
                assert(rest[0] == ds@[j as int]);
                assert(rest[1] == ds@[j + 1]);
                assert(rest.subrange(2, rest.len() as int) =~= ds@.subrange(j + 2, n as int));
            }
            j = j + 2;
        } else {
            violations.push(
                Violation {
                    kind: ViolationKind::BrokenDoublePeriod { requirement: id },
                    slot: Some(Slot(ds[j])),
                },
            );
            proof {
                assert(rest[0] == ds@[j as int]);
                if j + 1 < n {
                    assert(rest[1] == ds@[j + 1]);
                }
                assert(rest.subrange(1, rest.len() as int) =~= ds@.subrange(j + 1, n as int));
            }
            j = j + 1;
        }
    }
    proof {
        assert(ds@.subrange(n as int, n as int) =~= Seq::<u32>::empty());
    }
}

/// Appends the broken-double violations of every double-period requirement:
/// its slots grouped by day, each day's slots paired greedily in ascending order.
fn double_periods(
    p: &Problem,
    req_slots: &Vec<Vec<u32>>,
    violations: &mut Vec<Violation>,
    Ghost(ls): Ghost<Seq<Lesson>>,
)
    requires
        p.is_well_formed(),
        req_slots@.len() == p.requirements@.len(),
        forall|i: int|
            0 <= i < p.requirements@.len() ==> (#[trigger] req_slots@[i])@ == requirement_slots(
                *p,
                ls,
                i,
            ),
    ensures
        final(violations)@ == old(violations)@ + double_phase(*p, ls, p.requirements@.len()),
{
    let ghost p0 = *p;
    let ghost v0 = violations@;
    let ndays = p.schedule.days as usize;
    let mut i: usize = 0;
    while i < p.requirements.len()
        invariant
            p0 == *p,
            p.is_well_formed(),
            ndays == p.schedule.days,
            req_slots@.len() == p.requirements@.len(),
            forall|i: int|
                0 <= i < p.requirements@.len() ==> (#[trigger] req_slots@[i])@
                    == requirement_slots(*p, ls, i),
            i <= p.requirements@.len(),
            violations@ == v0 + double_phase(p0, ls, i as nat),
        decreases p.requirements@.len() - i,
    {
        let req = &p.requirements[i];
        let ghost vi = violations@;
        if req.double_period {
            let slots = &req_slots[req.id.idx()];
            proof {
                assert(req.id.0 == i);
                lemma_requirement_slots_in_week(p0, ls, i as int);
            }
            // Group the slots by day, keeping their order.
            let mut by_day: Vec<Vec<u32>> = Vec::new();
            let mut d: usize = 0;
            while d < ndays
                invariant
                    d <= ndays,
                    by_day@.len() == d,
                    forall|k: int| 0 <= k < d ==> (#[trigger] by_day@[k])@ == Seq::<u32>::empty(),
                decreases ndays - d,
            {
                by_day.push(Vec::new());
                d = d + 1;
            }
            let mut j: usize = 0;
            proof {
                assert forall|k: int| 0 <= k < ndays implies (#[trigger] by_day@[k])@
                    == slots_on_day(p0.schedule, slots@.take(0), k) by {
                    assert(slots@.take(0) =~= Seq::<u32>::empty());
                }
            }
            while j < slots.len()
                invariant
                    p0 == *p,
                    p.is_well_formed(),
                    ndays == p.schedule.days,
                    slots@ == requirement_slots(p0, ls, i as int),
                    forall|k: int|
                        0 <= k < slots@.len() ==> #[trigger] slots@[k] < p0.schedule.num_slots(),
                    j <= slots@.len(),
                    by_day@.len() == ndays,
                    forall|k: int|
                        0 <= k < ndays ==> (#[trigger] by_day@[k])@ == slots_on_day(
                            p0.schedule,
                            slots@.take(j as int),
                            k,
                        ),
                decreases slots@.len() - j,
            {
                let x = slots[j];
                proof {
                    lemma_day_in_week(p0.schedule, Slot(x));
                }
                let day = p.schedule.day(Slot(x)) as usize;
                let ghost old_by_day = by_day@;
                by_day[day].push(x);
                proof {
                    assert(slots@.take(j + 1).drop_last() =~= slots@.take(j as int));
                    assert forall|k: int| 0 <= k < ndays implies (#[trigger] by_day@[k])@
                        == slots_on_day(p0.schedule, slots@.take(j + 1), k) by {
                        assert(old_by_day[k]@ == slots_on_day(
                            p0.schedule,
                            slots@.take(j as int),
                            k,
                        ));
                    }
                }
                j = j + 1;
            }
            proof {
                assert(slots@.take(j as int) =~= slots@);
            }
            // Pair each day's slots in ascending order.
            let mut d: usize = 0;
            while d < ndays
                invariant
                    p0 == *p,
                    p.is_well_formed(),
                    ndays == p.schedule.days,
                    i < p.requirements@.len(),
                    *req == p0.requirements@[i as int],
                    by_day@.len() == ndays,
                    forall|k: int|
                        0 <= k < ndays ==> (#[trigger] by_day@[k])@ == slots_on_day(
                            p0.schedule,
                            requirement_slots(p0, ls, i as int),
                            k,
                        ),
                    d <= ndays,
                    violations@ == vi + double_days(p0, ls, i as int, d as nat),
                decreases ndays - d,
            {
                let ds = sort_slots(&by_day[d]);
                push_unpaired(&p.schedule, &ds, req.id, violations);
                proof {
                    assert(violations@ =~= vi + double_days(p0, ls, i as int, (d + 1) as nat));
                }
                d = d + 1;
            }
        }
        proof {
            assert(violations@ =~= v0 + double_phase(p0, ls, (i + 1) as nat));
        }
        i = i + 1;
    }
}

/// Checks a complete timetable against every hard constraint and returns all
/// violations.
///
/// The problem's integrity is checked first; when it fails, only those errors
/// are reported (checking further on a broken input would only cascade).
/// Otherwise one occupancy bitmap per teacher, class and room detects clashes
/// lesson by lesson, and flat counters hold the per-day subject counts: the
/// work is linear in the number of lessons.
///
/// Lesson counts are kept in `u32` and the per-day counts in one flat vector,
/// which bounds the sizes accepted.
pub fn validate(problem: &Problem, tt: &Timetable) -> (v: Vec<Violation>)
    requires
        tt.lessons@.len() <= u32::MAX,
        problem.schedule.is_valid() ==> problem.classes@.len() * problem.subjects@.len()
            * problem.schedule.days <= usize::MAX,
    ensures
        v@ == violations_of(*problem, *tt),
{
    let errors = problem.check_integrity();
    if errors.len() > 0 {
        let mut out: Vec<Violation> = Vec::new();
        let mut i: usize = 0;
        while i < errors.len()
            invariant
                i <= errors@.len(),
                out@ == invalid_problem_violations(errors@.take(i as int)),
            decreases errors@.len() - i,
        {
            out.push(Violation { kind: ViolationKind::InvalidProblem(errors[i]), slot: None });
            proof {
                assert(invalid_problem_violations(errors@.take(i + 1)) =~= invalid_problem_violations(
                    errors@.take(i as int),
                ).push(out@.last()));
            }
            i = i + 1;
        }
        proof {
            assert(errors@.take(i as int) =~= errors@);
        }
        return out;
    }
    proof {
        lemma_clean_iff_well_formed(*problem);
    }
    let ghost ls = tt.lessons@;
    let mut violations: Vec<Violation> = Vec::new();
    let t = scan_lessons(problem, tt, &mut violations);
    daily_limits(problem, &t.daily, &mut violations, Ghost(ls));
    double_periods(problem, &t.req_slots, &mut violations, Ghost(ls));
    coverage(problem, &t.covered, &mut violations, Ghost(ls));
    proof {
        assert(violations@ =~= violations_of(*problem, *tt));
    }
    violations
}


/// The text of a slot that may be absent.
pub open spec fn optional_slot_text(p: Problem, slot: Option<Slot>) -> Seq<char> {
    match slot {
        Some(s) => p.schedule.slot_text(s),
        None => Seq::empty(),
    }
}

/// The readable text of a violation: who, in which slot, which constraint.
pub open spec fn violation_text(v: Violation, p: Problem) -> Seq<char> {
    let at = optional_slot_text(p, v.slot);
    match v.kind {
        ViolationKind::TeacherConflict { teacher } => "教师冲突："@ + p.teacher_name_text(teacher)
            + " 在"@ + at + "被同时安排了多节课"@,
        ViolationKind::ClassConflict { class } => "班级冲突："@ + p.class_name_text(class) + " 在"@
            + at + "有多节课同时进行"@,
        ViolationKind::RoomConflict { room } => "教室冲突："@ + p.room_name_text(room) + " 在"@ + at
            + "被多节课同时使用"@,
        ViolationKind::TeacherUnavailable { teacher } => "教师不可用："@ + p.teacher_name_text(
            teacher,
        ) + " 在"@ + at + "有课，但该时段已被标记为不可用"@,
        ViolationKind::BrokenDoublePeriod { requirement } => "连堂未成对："@
            + p.requirement_text(requirement) + " 在"@ + at
            + "的课节没有与之相邻成对的同需求课节（连堂须相邻且不跨中午）"@,
        ViolationKind::SubjectDailyLimit { class, subject, count } => "科目日超限："@
            + p.class_name_text(class) + " 的 "@ + p.subject_name_text(subject) + " 在"@ + at
            + "当天共排了 "@ + decimal_text(count as nat) + " 节，超过 2 节上限"@,
        ViolationKind::RequirementCoverage { requirement, expected, actual } => "课时不符："@
            + p.requirement_text(requirement) + " 应排 "@ + decimal_text(expected as nat)
            + " 节，实际排了 "@ + decimal_text(actual as nat) + " 节"@,
        ViolationKind::RoomMismatch { requirement, expected, actual } => "教室不符："@
            + p.requirement_text(requirement) + " 在"@ + at + "应在 "@ + p.room_name_text(expected)
            + " 上课，实际排在 "@ + p.room_name_text(actual),
        ViolationKind::SlotOutOfRange { slot } => "数据非法：时间槽 "@ + decimal_text(slot as nat)
            + " 超出每周总槽数 "@ + decimal_text(p.schedule.num_slots()),
        ViolationKind::UnknownRequirement { id } => "数据非法：课表引用了不存在的需求 #"@
            + decimal_text(id as nat),
        ViolationKind::UnknownRoom { id } => "数据非法：课表引用了不存在的教室 #"@ + decimal_text(
            id as nat,
        ),
        ViolationKind::InvalidProblem(e) => integrity_error_text(e, p),
    }
}

impl Violation {
    /// A readable description: who, in which slot, which constraint.
    pub fn describe(&self, p: &Problem) -> (s: String)
        requires
            self.slot is Some ==> p.schedule.periods_per_day >= 1,
        ensures
            s@ == violation_text(*self, *p),
    {
        let at = match self.slot {
            Some(slot) => p.schedule.describe_slot(slot),
            None => String::new(),
        };
        let mut s = String::new();
        match self.kind {
            ViolationKind::TeacherConflict { teacher } => {
                s.append("教师冲突：");
                s.append(p.teacher_name(teacher));
                s.append(" 在");
                s.append(at.as_str());
                s.append("被同时安排了多节课");
            },
            ViolationKind::ClassConflict { class } => {
                s.append("班级冲突：");
                s.append(p.class_name(class));
                s.append(" 在");
                s.append(at.as_str());
                s.append("有多节课同时进行");
            },
            ViolationKind::RoomConflict { room } => {
                s.append("教室冲突：");
                s.append(p.room_name(room));
                s.append(" 在");
                s.append(at.as_str());
                s.append("被多节课同时使用");
            },
            ViolationKind::TeacherUnavailable { teacher } => {
                s.append("教师不可用：");
                s.append(p.teacher_name(teacher));
                s.append(" 在");
                s.append(at.as_str());
                s.append("有课，但该时段已被标记为不可用");
            },
            ViolationKind::BrokenDoublePeriod { requirement } => {
                s.append("连堂未成对：");
                let desc = p.requirement_desc(requirement);
                s.append(desc.as_str());
                s.append(" 在");
                s.append(at.as_str());
                s.append("的课节没有与之相邻成对的同需求课节（连堂须相邻且不跨中午）");
            },
            ViolationKind::SubjectDailyLimit { class, subject, count } => {
                s.append("科目日超限：");
                s.append(p.class_name(class));
                s.append(" 的 ");
                s.append(p.subject_name(subject));
                s.append(" 在");
                s.append(at.as_str());
                s.append("当天共排了 ");
                push_decimal(&mut s, count as u64);
                s.append(" 节，超过 2 节上限");
            },
            ViolationKind::RequirementCoverage { requirement, expected, actual } => {
                s.append("课时不符：");
                let desc = p.requirement_desc(requirement);
                s.append(desc.as_str());
                s.append(" 应排 ");
                push_decimal(&mut s, expected as u64);
                s.append(" 节，实际排了 ");
                push_decimal(&mut s, actual as u64);
                s.append(" 节");
            },
            ViolationKind::RoomMismatch { requirement, expected, actual } => {
                s.append("教室不符：");
                let desc = p.requirement_desc(requirement);
                s.append(desc.as_str());
                s.append(" 在");
                s.append(at.as_str());
                s.append("应在 ");
                s.append(p.room_name(expected));
                s.append(" 上课，实际排在 ");
                s.append(p.room_name(actual));
            },
            ViolationKind::SlotOutOfRange { slot } => {
                s.append("数据非法：时间槽 ");
                push_decimal(&mut s, slot as u64);
                s.append(" 超出每周总槽数 ");
                push_decimal(&mut s, p.slot_count() as u64);
            },
            ViolationKind::UnknownRequirement { id } => {
                s.append("数据非法：课表引用了不存在的需求 #");
                push_decimal(&mut s, id as u64);
            },
            ViolationKind::UnknownRoom { id } => {
                s.append("数据非法：课表引用了不存在的教室 #");
                push_decimal(&mut s, id as u64);
            },
            ViolationKind::InvalidProblem(e) => {
                let text = e.describe(p);
                s.append(text.as_str());
            },
        }
        s
    }
}

} // verus!
