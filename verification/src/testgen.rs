//! Deterministic fixture generator: 20 classes, 60 teachers, 12 subjects,
//! 26 rooms.
//!
//! Produces a problem ([`Problem`]) and a complete timetable ([`Timetable`])
//! for tests and benchmarks. The same seed always gives the same result: no
//! clock and no outside source of randomness is involved.
//!
//! Shape: 5 days of 8 periods (40 slots); 35 lessons per class and week, 700
//! lessons in all.

use vstd::prelude::*;
use vstd::string::*;
use crate::bitmap::Bitmap;
use vstd::seq_lib::lemma_sorted_unique;
use crate::hard_constraints::{clash_free, lemma_no_violations_iff_valid, lesson_ok, pair_at, pairs_up, timetable_is_valid};
use crate::integrity::pinned_room_missing;
use crate::model::{lemma_slot_roundtrip, Class, ClassId, Lesson, Problem, Requirement, RequirementId, Room, RoomId, Slot, Subject, SubjectId, Teacher, TeacherId, Timetable, WeekSchedule};
use crate::slot_sort::{ascending, lemma_slot_leq_total, slot_leq};
use crate::text::{decimal_text, push_decimal, push_two_digits, two_digit_text};
use crate::validate::{blank_bitmaps, count_lessons, flat_index, is_placed, lemma_count_push, lemma_flat_index, lemma_flat_index_injective, lesson_req, of_requirement, requirement_slots, slots_on_day, subject_on_day, violations_of, Violation, DAILY_SUBJECT_LIMIT};

verus! {

broadcast use vstd::seq_lib::group_to_multiset_ensures;

pub const N_CLASSES: usize = 20;

pub const N_SUBJECTS: usize = 12;

pub const TEACHERS_PER_SUBJECT: usize = 5;

pub const N_ROOMS: usize = 26;

pub const N_DAYS: u8 = 5;

pub const PERIODS_PER_DAY: u8 = 8;

pub const LUNCH_AFTER: u8 = 4;

pub const SUBJ_PE: usize = 9;

pub const SUBJ_PHYS_LAB: usize = 10;

pub const SUBJ_CHEM_LAB: usize = 11;

/// Subject names, by subject index.
pub open spec fn subject_name_text(i: int) -> Seq<char> {
    if i == 0 {
        "语文"@
    } else if i == 1 {
        "数学"@
    } else if i == 2 {
        "英语"@
    } else if i == 3 {
        "物理"@
    } else if i == 4 {
        "化学"@
    } else if i == 5 {
        "生物"@
    } else if i == 6 {
        "历史"@
    } else if i == 7 {
        "地理"@
    } else if i == 8 {
        "政治"@
    } else if i == 9 {
        "体育"@
    } else if i == 10 {
        "物理实验"@
    } else {
        "化学实验"@
    }
}

/// Subject names, by subject index.
fn subject_name(i: usize) -> (s: &'static str)
    requires
        i < N_SUBJECTS,
    ensures
        s@ == subject_name_text(i as int),
{
    if i == 0 {
        "语文"
    } else if i == 1 {
        "数学"
    } else if i == 2 {
        "英语"
    } else if i == 3 {
        "物理"
    } else if i == 4 {
        "化学"
    } else if i == 5 {
        "生物"
    } else if i == 6 {
        "历史"
    } else if i == 7 {
        "地理"
    } else if i == 8 {
        "政治"
    } else if i == 9 {
        "体育"
    } else if i == 10 {
        "物理实验"
    } else {
        "化学实验"
    }
}

/// The weekly plan of every class, by subject: (lessons per week, double
/// period). The two labs come as doubles; 35 lessons in all.
pub open spec fn plan_lessons(subject: int) -> u8 {
    if subject <= 2 {
        5
    } else if subject <= 4 {
        3
    } else {
        2
    }
}

fn weekly_plan(subject: usize) -> (r: (u8, bool))
    requires
        subject < N_SUBJECTS,
    ensures
        r.0 == plan_lessons(subject as int),
        r.1 == (subject == SUBJ_PHYS_LAB || subject == SUBJ_CHEM_LAB),
{
    if subject <= 2 {
        (5, false)
    } else if subject <= 4 {
        (3, false)
    } else {
        (2, subject == SUBJ_PHYS_LAB || subject == SUBJ_CHEM_LAB)
    }
}

/// One step of the xorshift64 state.
pub open spec fn xorshift(x: u64) -> u64 {
    let a = x ^ (x >> 12u64);
    let b = a ^ (a << 25u64);
    b ^ (b >> 27u64)
}

/// The xorshift64* output multiplier.
pub const RNG_MULTIPLIER: u64 = 0x2545_F491_4F6C_DD1D;

/// The index in [0, n) that `Rng::below` draws from state `state`.
pub open spec fn below_value(state: u64, n: nat) -> int {
    (xorshift(state).wrapping_mul(RNG_MULTIPLIER) % (n as u64)) as int
}

/// The Fisher-Yates steps for positions `i - 1` down to 1: position `i - 1`
/// swaps with a drawn position below `i`. Gives the sequence and the state
/// after them.
pub open spec fn shuffle_steps<T>(s: Seq<T>, state: u64, i: nat) -> (Seq<T>, u64)
    decreases i,
{
    if i <= 1 {
        (s, state)
    } else {
        let k = i - 1;
        let j = below_value(state, i);
        shuffle_steps(s.update(k, s[j]).update(j, s[k]), xorshift(state), (i - 1) as nat)
    }
}

/// `s` shuffled from state `state`, and the state after.
pub open spec fn shuffled<T>(s: Seq<T>, state: u64) -> (Seq<T>, u64) {
    shuffle_steps(s, state, s.len())
}

/// xorshift64* pseudo-random generator, for the fixture only.
struct Rng(u64);

impl Rng {
    fn new(seed: u64) -> (r: Rng)
        ensures
            r.0 == seed ^ 0x9E37_79B9_7F4A_7C15u64,
    {
        // Avoid the all-zero state, which never leaves zero.
        Rng(seed ^ 0x9E37_79B9_7F4A_7C15u64)
    }

    fn next(&mut self) -> (r: u64)
        ensures
            final(self).0 == xorshift(old(self).0),
            r == xorshift(old(self).0).wrapping_mul(RNG_MULTIPLIER),
    {
        let mut x = self.0;
        x = x ^ (x >> 12u64);
        x = x ^ (x << 25u64);
        x = x ^ (x >> 27u64);
        self.0 = x;
        x.wrapping_mul(RNG_MULTIPLIER)
    }

    /// A value in [0, n).
    fn below(&mut self, n: usize) -> (r: usize)
        requires
            n > 0,
        ensures
            r < n,
            r == xorshift(old(self).0).wrapping_mul(RNG_MULTIPLIER) % (n as u64),
            final(self).0 == xorshift(old(self).0),
    {
        (self.next() % n as u64) as usize
    }

    /// Fisher-Yates shuffle: a permutation of `v`.
    fn shuffle<T: Copy>(&mut self, v: &mut Vec<T>)
        ensures
            final(v)@.to_multiset() == old(v)@.to_multiset(),
            final(v)@.len() == old(v)@.len(),
            forall|k: int| 0 <= k < final(v)@.len() ==> old(v)@.contains(#[trigger] final(v)@[k]),
            forall|k: int| 0 <= k < old(v)@.len() ==> final(v)@.contains(#[trigger] old(v)@[k]),
            old(v)@.no_duplicates() ==> final(v)@.no_duplicates(),
            (final(v)@, final(self).0) == shuffled(old(v)@, old(self).0),
    {
        let ghost orig = v@;
        let ghost st0 = self.0;
        let mut i = v.len();
        while i > 1
            invariant
                i <= v@.len(),
                v@.len() == orig.len(),
                v@.to_multiset() == orig.to_multiset(),
                shuffle_steps(v@, self.0, i as nat) == shuffled(orig, st0),
            decreases i,
        {
            let ghost st = self.0;
            i = i - 1;
            let j = self.below(i + 1);
            let a = v[i];
            let b = v[j];
            let ghost s0 = v@;
            v[i] = b;
            v[j] = a;
            proof {
                assert(v@ =~= s0.update(i as int, b).update(j as int, a));
                assert(j == below_value(st, (i + 1) as nat));
            }
        }
        proof {
            assert forall|k: int| 0 <= k < v@.len() implies orig.contains(#[trigger] v@[k]) by {
                assert(v@.to_multiset().count(v@[k]) > 0);
            }
            assert forall|k: int| 0 <= k < orig.len() implies v@.contains(#[trigger] orig[k]) by {
                assert(orig.to_multiset().count(orig[k]) > 0);
            }
            if orig.no_duplicates() {
                orig.lemma_multiset_has_no_duplicates();
                v@.lemma_multiset_has_no_duplicates_conv();
            }
        }
    }
}


/// The dedicated room of a lab or sports subject for class `class`: two rooms
/// of each kind, split by the class's parity.
pub open spec fn lab_room_index(subject: int, class: int) -> int {
    let base = if subject == SUBJ_PHYS_LAB {
        N_CLASSES as int
    } else if subject == SUBJ_CHEM_LAB {
        N_CLASSES + 2
    } else {
        N_CLASSES + 4
    };
    base + class % 2
}

fn lab_room(subject: usize, class: usize) -> (r: RoomId)
    requires
        subject == SUBJ_PE || subject == SUBJ_PHYS_LAB || subject == SUBJ_CHEM_LAB,
        class < N_CLASSES,
    ensures
        r.0 == lab_room_index(subject as int, class as int),
        r.0 < N_ROOMS,
{
    let base = if subject == SUBJ_PHYS_LAB {
        N_CLASSES
    } else if subject == SUBJ_CHEM_LAB {
        N_CLASSES + 2
    } else {
        N_CLASSES + 4
    };
    RoomId((base + class % 2) as u32)
}

/// `bits` with `n` drawn slots (each below `nslots`) set, drawing from state
/// `st`; and the state after.
pub open spec fn marks(bits: Seq<bool>, st: u64, nslots: nat, n: nat) -> (Seq<bool>, u64)
    decreases n,
{
    if n == 0 {
        (bits, st)
    } else {
        marks(bits.update(below_value(st, nslots), true), xorshift(st), nslots, (n - 1) as nat)
    }
}

/// One teacher's unavailable slots, from state `st`: a count below six is
/// drawn, then that many slots. Gives the slots and the state after.
pub open spec fn teacher_marks(st: u64, nslots: nat) -> (Seq<bool>, u64) {
    marks(Seq::new(nslots, |i: int| false), xorshift(st), nslots, below_value(st, 6) as nat)
}

/// The unavailable slots of the first `i` teachers, drawn in turn from state
/// `st`; and the state after.
pub open spec fn teachers_upto(st: u64, nslots: nat, i: nat) -> (Seq<Seq<bool>>, u64)
    decreases i,
{
    if i == 0 {
        (Seq::empty(), st)
    } else {
        let (u, st1) = teachers_upto(st, nslots, (i - 1) as nat);
        let (bits, st2) = teacher_marks(st1, nslots);
        (u.push(bits), st2)
    }
}

/// The name of teacher `t`: numbered from 1, on two digits.
pub open spec fn teacher_name_text(t: int) -> Seq<char> {
    "教师"@ + two_digit_text((t + 1) as nat)
}

/// The name of room `r`: twenty class rooms numbered from 1, two physics
/// labs, two chemistry labs, two sports fields.
pub open spec fn room_name_text(r: int) -> Seq<char> {
    if r < N_CLASSES {
        "教室"@ + decimal_text((r + 1) as nat)
    } else if r == 20 {
        "物理实验室1"@
    } else if r == 21 {
        "物理实验室2"@
    } else if r == 22 {
        "化学实验室1"@
    } else if r == 23 {
        "化学实验室2"@
    } else if r == 24 {
        "操场1"@
    } else {
        "操场2"@
    }
}

/// The name of class `c`: ten classes of grade one, then ten of grade two,
/// each numbered from 1.
pub open spec fn class_name_text(c: int) -> Seq<char> {
    if c < 10 {
        "高一("@ + decimal_text((c + 1) as nat) + ")班"@
    } else {
        "高二("@ + decimal_text((c - 9) as nat) + ")班"@
    }
}

/// The numbers and names of a fixture's subjects, teachers, rooms and
/// classes.
pub open spec fn fixture_labels(p: Problem) -> bool {
    &&& forall|i: int|
        0 <= i < p.subjects@.len() ==> (#[trigger] p.subjects@[i]).id.0 == i && p.subjects@[i].name@
            == subject_name_text(i)
    &&& forall|t: int|
        0 <= t < p.teachers@.len() ==> (#[trigger] p.teachers@[t]).id.0 == t && p.teachers@[t].name@
            == teacher_name_text(t)
    &&& forall|r: int|
        0 <= r < p.rooms@.len() ==> (#[trigger] p.rooms@[r]).id.0 == r && p.rooms@[r].name@
            == room_name_text(r)
    &&& forall|c: int| 0 <= c < p.classes@.len() ==> (#[trigger] p.classes@[c]).name@ == class_name_text(c)
}

/// Each grade has ten classes numbered 1 to 10: the first ten classes are
/// grade one and the next ten grade two, class `c` being number `c % 10 + 1`
/// of its grade; classes `c` and `c + 10` carry the same number.
pub proof fn lemma_class_names(c: int)
    requires
        0 <= c < 10,
    ensures
        class_name_text(c) == "高一("@ + decimal_text((c % 10 + 1) as nat) + ")班"@,
        class_name_text(c + 10) == "高二("@ + decimal_text(((c + 10) % 10 + 1) as nat) + ")班"@,
        class_name_text(c).subrange(0, 3) == "高一("@,
        class_name_text(c + 10) == "高二("@ + class_name_text(c).subrange(
            3,
            class_name_text(c).len() as int,
        ),
{
    reveal_strlit("高一(");
    reveal_strlit("高二(");
    assert(c % 10 == c && (c + 10) % 10 == c);
    let tail = decimal_text((c + 1) as nat) + ")班"@;
    assert(class_name_text(c) =~= "高一("@ + tail);
    assert(class_name_text(c).subrange(0, 3) =~= "高一("@);
    assert(class_name_text(c).subrange(3, class_name_text(c).len() as int) =~= tail);
    assert(class_name_text(c + 10) =~= "高二("@ + tail);
}

/// Sixty teachers, five per subject; each is unavailable in up to five
/// random slots.
fn make_teachers(rng: &mut Rng, nslots: usize) -> (ts: Vec<Teacher>)
    requires
        nslots > 0,
    ensures
        ts@.len() == N_SUBJECTS * TEACHERS_PER_SUBJECT,
        forall|t: int|
            0 <= t < ts@.len() ==> (#[trigger] ts@[t]).unavailable@.len() == nslots && ts@[t].id.0
                == t && ts@[t].name@ == teacher_name_text(t),
        (Seq::new(ts@.len(), |t: int| ts@[t].unavailable@), final(rng).0) == teachers_upto(
            old(rng).0,
            nslots as nat,
            (N_SUBJECTS * TEACHERS_PER_SUBJECT) as nat,
        ),
{
    let ghost st0 = rng.0;
    let mut ts: Vec<Teacher> = Vec::new();
    let mut i: usize = 0;
    proof {
        assert(Seq::new(0nat, |t: int| ts@[t].unavailable@) =~= Seq::<Seq<bool>>::empty());
    }
    while i < N_SUBJECTS * TEACHERS_PER_SUBJECT
        invariant
            nslots > 0,
            i <= N_SUBJECTS * TEACHERS_PER_SUBJECT,
            ts@.len() == i,
            forall|t: int|
                0 <= t < i ==> (#[trigger] ts@[t]).unavailable@.len() == nslots && ts@[t].id.0 == t
                    && ts@[t].name@ == teacher_name_text(t),
            (Seq::new(i as nat, |t: int| ts@[t].unavailable@), rng.0) == teachers_upto(
                st0,
                nslots as nat,
                i as nat,
            ),
        decreases N_SUBJECTS * TEACHERS_PER_SUBJECT - i,
    {
        let ghost sti = rng.0;
        let mut unavailable = Bitmap::new(nslots);
        let n = rng.below(6);
        let ghost target = marks(unavailable@, rng.0, nslots as nat, n as nat);
        proof {
            assert(target == teacher_marks(sti, nslots as nat));
        }
        let mut k: usize = 0;
        while k < n
            invariant
                nslots > 0,
                unavailable@.len() == nslots,
                k <= n,
                marks(unavailable@, rng.0, nslots as nat, (n - k) as nat) == target,
            decreases n - k,
        {
            let ghost st = rng.0;
            let s = rng.below(nslots);
            unavailable.set(s);
            proof {
                assert(s == below_value(st, nslots as nat));
            }
            k = k + 1;
        }
        let mut name = String::new();
        name.append("教师");
        push_two_digits(&mut name, (i + 1) as u64);
        let ghost before = ts@;
        ts.push(Teacher { id: TeacherId(i as u32), name, unavailable });
        proof {
            assert(Seq::new((i + 1) as nat, |t: int| ts@[t].unavailable@) =~= Seq::new(
                i as nat,
                |t: int| before[t].unavailable@,
            ).push(unavailable@));
        }
        i = i + 1;
    }
    ts
}

/// Twenty class rooms, two physics labs, two chemistry labs, two sports fields.
fn make_rooms() -> (rooms: Vec<Room>)
    ensures
        rooms@.len() == N_ROOMS,
        forall|r: int|
            0 <= r < N_ROOMS ==> (#[trigger] rooms@[r]).id.0 == r && rooms@[r].name@
                == room_name_text(r),
{
    let mut rooms: Vec<Room> = Vec::new();
    let mut i: usize = 0;
    while i < N_CLASSES
        invariant
            i <= N_CLASSES,
            rooms@.len() == i,
            forall|r: int|
                0 <= r < i ==> (#[trigger] rooms@[r]).id.0 == r && rooms@[r].name@
                    == room_name_text(r),
        decreases N_CLASSES - i,
    {
        let mut name = String::new();
        name.append("教室");
        push_decimal(&mut name, (i + 1) as u64);
        proof {
            assert(name@ =~= room_name_text(i as int));
        }
        rooms.push(Room { id: RoomId(i as u32), name });
        i = i + 1;
    }
    rooms.push(Room { id: RoomId(20), name: String::from_str("物理实验室1") });
    rooms.push(Room { id: RoomId(21), name: String::from_str("物理实验室2") });
    rooms.push(Room { id: RoomId(22), name: String::from_str("化学实验室1") });
    rooms.push(Room { id: RoomId(23), name: String::from_str("化学实验室2") });
    rooms.push(Room { id: RoomId(24), name: String::from_str("操场1") });
    rooms.push(Room { id: RoomId(25), name: String::from_str("操场2") });
    rooms
}

/// Twenty classes: ten of grade one, ten of grade two; class `i` owns room `i`.
fn make_classes() -> (classes: Vec<Class>)
    ensures
        classes@.len() == N_CLASSES,
        forall|c: int|
            0 <= c < N_CLASSES ==> (#[trigger] classes@[c]).id.0 == c && classes@[c].home_room.0
                == c && classes@[c].name@ == class_name_text(c),
{
    let mut classes: Vec<Class> = Vec::new();
    let mut i: usize = 0;
    while i < N_CLASSES
        invariant
            i <= N_CLASSES,
            classes@.len() == i,
            forall|c: int|
                0 <= c < i ==> (#[trigger] classes@[c]).id.0 == c && classes@[c].home_room.0 == c
                    && classes@[c].name@ == class_name_text(c),
        decreases N_CLASSES - i,
    {
        let mut name = String::new();
        if i < 10 {
            name.append("高一(");
            push_decimal(&mut name, (i + 1) as u64);
        } else {
            name.append("高二(");
            push_decimal(&mut name, (i - 9) as u64);
        }
        name.append(")班");
        proof {
            assert(name@ =~= class_name_text(i as int));
        }
        classes.push(Class { id: ClassId(i as u32), name, home_room: RoomId(i as u32) });
        i = i + 1;
    }
    classes
}

/// The shape of the generated requirements: one per class and subject, in
/// class-major order, taught by a teacher of that subject's pool, with the
/// weekly plan's lesson count, and pinned to a dedicated room for the labs and
/// sports.
pub open spec fn requirement_shape(r: Requirement, i: int) -> bool {
    let c = i / N_SUBJECTS as int;
    let subj = i % N_SUBJECTS as int;
    &&& r.id.0 == i
    &&& r.class.0 == c
    &&& r.subject.0 == subj
    &&& (r.teacher.0 as int) / (TEACHERS_PER_SUBJECT as int) == subj
    &&& r.teacher.0 < N_SUBJECTS * TEACHERS_PER_SUBJECT
    &&& r.lessons_per_week == plan_lessons(subj)
    &&& r.double_period == (subj == SUBJ_PHYS_LAB || subj == SUBJ_CHEM_LAB)
    &&& r.room == if subj == SUBJ_PE || subj == SUBJ_PHYS_LAB || subj == SUBJ_CHEM_LAB {
        Some(RoomId(lab_room_index(subj, c) as u32))
    } else {
        None
    }
}

/// The least load among `load[start..start + k]` (for `k >= 1`).
pub open spec fn pool_min(load: Seq<u32>, start: int, k: nat) -> u32
    decreases k,
{
    if k <= 1 {
        load[start]
    } else {
        let m = pool_min(load, start, (k - 1) as nat);
        if load[start + k - 1] < m {
            load[start + k - 1]
        } else {
            m
        }
    }
}

/// The positions among `start..start + k` whose load is `m`, in order.
pub open spec fn pool_cands(load: Seq<u32>, start: int, m: u32, k: nat) -> Seq<usize>
    decreases k,
{
    if k == 0 {
        Seq::empty()
    } else {
        let c = pool_cands(load, start, m, (k - 1) as nat);
        if load[start + k - 1] == m {
            c.push((start + k - 1) as usize)
        } else {
            c
        }
    }
}

/// The least-loaded teachers of the pool of five starting at `start`, in
/// order.
pub open spec fn least_loaded_of(load: Seq<u32>, start: int) -> Seq<usize> {
    pool_cands(
        load,
        start,
        pool_min(load, start, TEACHERS_PER_SUBJECT as nat),
        TEACHERS_PER_SUBJECT as nat,
    )
}

/// The least-loaded teachers of the pool starting at `start`; never empty.
fn least_loaded(load: &Vec<u32>, start: usize) -> (cands: Vec<usize>)
    requires
        start + TEACHERS_PER_SUBJECT <= load@.len(),
    ensures
        cands@ == least_loaded_of(load@, start as int),
        cands@.len() > 0,
        forall|k: int|
            0 <= k < cands@.len() ==> start <= #[trigger] cands@[k] < start
                + TEACHERS_PER_SUBJECT,
{
    let len = load.len();
    let mut min_load = load[start];
    let mut k: usize = 1;
    let mut arg: usize = start;
    while k < TEACHERS_PER_SUBJECT
        invariant
            start + TEACHERS_PER_SUBJECT <= load@.len(),
            len == load@.len(),
            1 <= k <= TEACHERS_PER_SUBJECT,
            start <= arg < start + k,
            load@[arg as int] == min_load,
            min_load == pool_min(load@, start as int, k as nat),
            forall|j: int| start <= j < start + k ==> min_load <= #[trigger] load@[j],
        decreases TEACHERS_PER_SUBJECT - k,
    {
        if load[start + k] < min_load {
            min_load = load[start + k];
            arg = start + k;
        }
        k = k + 1;
    }
    let mut cands: Vec<usize> = Vec::new();
    let mut k: usize = 0;
    while k < TEACHERS_PER_SUBJECT
        invariant
            start + TEACHERS_PER_SUBJECT <= load@.len(),
            len == load@.len(),
            k <= TEACHERS_PER_SUBJECT,
            start <= arg < start + TEACHERS_PER_SUBJECT,
            load@[arg as int] == min_load,
            min_load == pool_min(load@, start as int, TEACHERS_PER_SUBJECT as nat),
            cands@ == pool_cands(load@, start as int, min_load, k as nat),
            arg < start + k ==> cands@.len() > 0,
            forall|j: int|
                0 <= j < cands@.len() ==> start <= #[trigger] cands@[j] < start
                    + TEACHERS_PER_SUBJECT,
        decreases TEACHERS_PER_SUBJECT - k,
    {
        if load[start + k] == min_load {
            cands.push(start + k);
        }
        k = k + 1;
    }
    cands
}

/// The requirement of class `c` for subject `subj`, taught by `teacher`.
pub open spec fn fixture_requirement(c: int, subj: int, teacher: int) -> Requirement {
    Requirement {
        id: RequirementId((c * N_SUBJECTS + subj) as u32),
        class: ClassId(c as u32),
        subject: SubjectId(subj as u32),
        teacher: TeacherId(teacher as u32),
        lessons_per_week: plan_lessons(subj),
        double_period: subj == SUBJ_PHYS_LAB || subj == SUBJ_CHEM_LAB,
        room: if subj == SUBJ_PE || subj == SUBJ_PHYS_LAB || subj == SUBJ_CHEM_LAB {
            Some(RoomId(lab_room_index(subj, c) as u32))
        } else {
            None
        },
    }
}

/// The first `n` requirements, class by class and subject by subject, drawn
/// from state `st`: each goes to a least-loaded teacher of its subject's pool,
/// picked at random, whose load then grows by its lessons. Gives the
/// requirements, the teachers' loads and the state after.
pub open spec fn requirements_upto(st: u64, n: nat) -> (Seq<Requirement>, Seq<u32>, u64)
    decreases n,
{
    if n == 0 {
        (Seq::empty(), Seq::new((N_SUBJECTS * TEACHERS_PER_SUBJECT) as nat, |j: int| 0u32), st)
    } else {
        let (reqs, load, st1) = requirements_upto(st, (n - 1) as nat);
        let i = n - 1;
        let c = i / (N_SUBJECTS as int);
        let subj = i % (N_SUBJECTS as int);
        let cands = least_loaded_of(load, subj * TEACHERS_PER_SUBJECT);
        let t = cands[below_value(st1, cands.len())] as int;
        (
            reqs.push(fixture_requirement(c, subj, t)),
            load.update(t, (load[t] + plan_lessons(subj)) as u32),
            xorshift(st1),
        )
    }
}

/// One requirement per class and subject of the weekly plan; each goes to one
/// of the least-loaded teachers of the subject's pool, chosen at random.
fn make_requirements(rng: &mut Rng, classes: &Vec<Class>) -> (reqs: Vec<Requirement>)
    requires
        classes@.len() == N_CLASSES,
        forall|c: int| 0 <= c < N_CLASSES ==> (#[trigger] classes@[c]).id.0 == c,
    ensures
        reqs@.len() == N_CLASSES * N_SUBJECTS,
        forall|i: int| 0 <= i < reqs@.len() ==> requirement_shape(#[trigger] reqs@[i], i),
        reqs@ == requirements_upto(old(rng).0, (N_CLASSES * N_SUBJECTS) as nat).0,
        final(rng).0 == requirements_upto(old(rng).0, (N_CLASSES * N_SUBJECTS) as nat).2,
{
    let ghost st0 = rng.0;
    let mut reqs: Vec<Requirement> = Vec::new();
    let mut load: Vec<u32> = Vec::new();
    let mut k: usize = 0;
    while k < N_SUBJECTS * TEACHERS_PER_SUBJECT
        invariant
            k <= N_SUBJECTS * TEACHERS_PER_SUBJECT,
            load@.len() == k,
            forall|j: int| 0 <= j < k ==> load@[j] == 0u32,
        decreases N_SUBJECTS * TEACHERS_PER_SUBJECT - k,
    {
        load.push(0u32);
        k = k + 1;
    }
    proof {
        assert(load@ =~= Seq::new((N_SUBJECTS * TEACHERS_PER_SUBJECT) as nat, |j: int| 0u32));
    }
    let mut c: usize = 0;
    while c < N_CLASSES
        invariant
            classes@.len() == N_CLASSES,
            forall|c: int| 0 <= c < N_CLASSES ==> (#[trigger] classes@[c]).id.0 == c,
            c <= N_CLASSES,
            reqs@.len() == c * N_SUBJECTS,
            load@.len() == N_SUBJECTS * TEACHERS_PER_SUBJECT,
            forall|j: int| 0 <= j < load@.len() ==> #[trigger] load@[j] <= 5 * reqs@.len(),
            forall|i: int| 0 <= i < reqs@.len() ==> requirement_shape(#[trigger] reqs@[i], i),
            (reqs@, load@, rng.0) == requirements_upto(st0, reqs@.len()),
        decreases N_CLASSES - c,
    {
        let mut subject: usize = 0;
        while subject < N_SUBJECTS
            invariant
                classes@.len() == N_CLASSES,
                forall|c: int| 0 <= c < N_CLASSES ==> (#[trigger] classes@[c]).id.0 == c,
                c < N_CLASSES,
                subject <= N_SUBJECTS,
                reqs@.len() == c * N_SUBJECTS + subject,
                load@.len() == N_SUBJECTS * TEACHERS_PER_SUBJECT,
                forall|j: int| 0 <= j < load@.len() ==> #[trigger] load@[j] <= 5 * reqs@.len(),
                forall|i: int| 0 <= i < reqs@.len() ==> requirement_shape(#[trigger] reqs@[i], i),
                (reqs@, load@, rng.0) == requirements_upto(st0, reqs@.len()),
            decreases N_SUBJECTS - subject,
        {
            let (lessons, double) = weekly_plan(subject);
            let pool_start = subject * TEACHERS_PER_SUBJECT;
            let ghost load0 = load@;
            let ghost st1 = rng.0;
            let cands = least_loaded(&load, pool_start);
            let pick = rng.below(cands.len());
            let teacher = cands[pick];
            let cur = load[teacher];
            load[teacher] = cur + lessons as u32;
            let room = if subject == SUBJ_PHYS_LAB || subject == SUBJ_CHEM_LAB || subject == SUBJ_PE {
                Some(lab_room(subject, c))
            } else {
                None
            };
            let id = reqs.len();
            proof {
                assert(id == c * N_SUBJECTS + subject);
                assert((c * N_SUBJECTS + subject) / (N_SUBJECTS as int) == c) by (nonlinear_arith)
                    requires
                        subject < N_SUBJECTS,
                ;
                assert((c * N_SUBJECTS + subject) % (N_SUBJECTS as int) == subject) by (nonlinear_arith)
                    requires
                        subject < N_SUBJECTS,
                ;
                assert(teacher / TEACHERS_PER_SUBJECT == subject) by (nonlinear_arith)
                    requires
                        subject * TEACHERS_PER_SUBJECT <= teacher < subject * TEACHERS_PER_SUBJECT
                            + TEACHERS_PER_SUBJECT,
                ;
            }
            reqs.push(
                Requirement {
                    id: RequirementId(id as u32),
                    class: classes[c].id,
                    subject: SubjectId(subject as u32),
                    teacher: TeacherId(teacher as u32),
                    lessons_per_week: lessons,
                    double_period: double,
                    room,
                },
            );
            proof {
                assert(pick == below_value(st1, cands@.len()));
                assert(reqs@.last() == fixture_requirement(c as int, subject as int, teacher as int));
                assert(load@ == load0.update(teacher as int, (load0[teacher as int] + plan_lessons(subject as int)) as u32));
            }
            subject = subject + 1;
        }
        c = c + 1;
    }
    reqs
}


/// Occupancy while placing lessons.
struct Placement {
    class_busy: Vec<Bitmap>,
    teacher_busy: Vec<Bitmap>,
    room_busy: Vec<Bitmap>,
    /// (class, subject, day) -> lessons placed, row-major.
    daily: Vec<u8>,
    lessons: Vec<Lesson>,
}

/// Slots of the fixture's week.
pub open spec fn fixture_slots() -> nat {
    (N_DAYS * PERIODS_PER_DAY) as nat
}

/// `n` bitmaps of `len` bits each.
spec fn bitmaps_of_len(v: Seq<Bitmap>, n: nat, len: nat) -> bool {
    &&& v.len() == n
    &&& forall|k: int| 0 <= k < n ==> (#[trigger] v[k])@.len() == len
}

/// The sizes the placement keeps.
spec fn placement_shape(pl: Placement) -> bool {
    &&& bitmaps_of_len(pl.class_busy@, N_CLASSES as nat, fixture_slots())
    &&& bitmaps_of_len(
        pl.teacher_busy@,
        (N_SUBJECTS * TEACHERS_PER_SUBJECT) as nat,
        fixture_slots(),
    )
    &&& bitmaps_of_len(pl.room_busy@, N_ROOMS as nat, fixture_slots())
    &&& pl.daily@.len() == N_CLASSES * N_SUBJECTS * (N_DAYS as int)
    &&& forall|k: int| 0 <= k < pl.daily@.len() ==> #[trigger] pl.daily@[k] <= 2
}

/// The class of a lesson.
spec fn class_key(p: Problem) -> spec_fn(Lesson) -> int {
    class_of(p.requirements@)
}

/// The teacher of a lesson.
spec fn teacher_key(p: Problem) -> spec_fn(Lesson) -> int {
    teacher_of(p.requirements@)
}

/// The room of a lesson.
spec fn room_key() -> spec_fn(Lesson) -> int {
    room_of()
}

/// Entity `e` is busy in slot `s` exactly when some lesson of `ls` with key
/// `e` is there.
spec fn busy_agrees(busy: Seq<Bitmap>, n: nat, ls: Seq<Lesson>, key: spec_fn(Lesson) -> int) -> bool {
    &&& bitmaps_of_len(busy, n, fixture_slots())
    &&& forall|e: int, s: int|
        0 <= e < n && 0 <= s < fixture_slots() ==> ((#[trigger] busy[e]@[s]) <==> exists|k: int|
            0 <= k < ls.len() && key(#[trigger] ls[k]) == e && ls[k].slot.0 == s)
}

/// A day's slots of a double-period requirement: none, or one legal double
/// `(x, x + 1)`.
spec fn day_pairing_ok(sch: WeekSchedule, s: Seq<u32>) -> bool {
    s.len() == 0 || (s.len() == 2 && s[1] == s[0] + 1 && sch.forms_double_pair(
        Slot(s[0]),
        Slot(s[1]),
    ))
}

/// The placement agrees with its lessons, and the lessons break no hard
/// constraint (apart from coverage, which grows as they are placed).
spec fn placement_valid(pl: Placement, p: Problem) -> bool {
    let ls = pl.lessons@;
    &&& placement_shape(pl)
    &&& forall|k: int| 0 <= k < ls.len() ==> lesson_ok(p, #[trigger] ls[k])
    &&& clash_free(p, ls)
    &&& busy_agrees(pl.class_busy@, N_CLASSES as nat, ls, class_key(p))
    &&& busy_agrees(
        pl.teacher_busy@,
        (N_SUBJECTS * TEACHERS_PER_SUBJECT) as nat,
        ls,
        teacher_key(p),
    )
    &&& busy_agrees(pl.room_busy@, N_ROOMS as nat, ls, room_key())
    &&& forall|c: int, subj: int, d: int|
        0 <= c < N_CLASSES && 0 <= subj < N_SUBJECTS && 0 <= d < N_DAYS ==> #[trigger] pl.daily@[flat_index(
            c,
            subj,
            d,
            N_SUBJECTS as int,
            N_DAYS as int,
        )] == count_lessons(ls, subject_on_day(p, c, subj, d))
    &&& forall|i: int, d: int|
        0 <= i < p.requirements@.len() && p.requirements@[i].double_period && 0 <= d < N_DAYS
            ==> day_pairing_ok(
            p.schedule,
            #[trigger] slots_on_day(p.schedule, requirement_slots(p, ls, i), d),
        )
}

// ---------------------------------------------------------------------------
// One lesson more.
// ---------------------------------------------------------------------------

proof fn lemma_busy_push(
    busy0: Seq<Bitmap>,
    busy1: Seq<Bitmap>,
    n: nat,
    ls: Seq<Lesson>,
    l: Lesson,
    key: spec_fn(Lesson) -> int,
)
    requires
        busy_agrees(busy0, n, ls, key),
        0 <= key(l) < n,
        l.slot.0 < fixture_slots(),
        busy1.len() == n,
        forall|e: int| 0 <= e < n && e != key(l) ==> (#[trigger] busy1[e])@ == busy0[e]@,
        busy1[key(l)]@ == busy0[key(l)]@.update(l.slot.0 as int, true),
    ensures
        busy_agrees(busy1, n, ls.push(l), key),
{
    let ls2 = ls.push(l);
    assert forall|k: int| 0 <= k < n implies (#[trigger] busy1[k])@.len() == fixture_slots() by {
        assert(busy0[k]@.len() == fixture_slots());
    }
    assert forall|e: int, s: int| 0 <= e < n && 0 <= s < fixture_slots() implies ((
    #[trigger] busy1[e]@[s]) <==> exists|k: int|
        0 <= k < ls2.len() && key(#[trigger] ls2[k]) == e && ls2[k].slot.0 == s) by {
        assert(busy0[e]@[s] <==> exists|k: int|
            0 <= k < ls.len() && key(#[trigger] ls[k]) == e && ls[k].slot.0 == s);
        if exists|k: int| 0 <= k < ls.len() && key(#[trigger] ls[k]) == e && ls[k].slot.0 == s {
            let k = choose|k: int| 0 <= k < ls.len() && key(#[trigger] ls[k]) == e && ls[k].slot.0 == s;
            assert(ls2[k] == ls[k]);
        }
        if e == key(l) && s == l.slot.0 {
            assert(ls2[ls.len() as int] == l);
        }
        if exists|k: int| 0 <= k < ls2.len() && key(#[trigger] ls2[k]) == e && ls2[k].slot.0 == s {
            let k = choose|k: int| 0 <= k < ls2.len() && key(#[trigger] ls2[k]) == e && ls2[k].slot.0 == s;
            if k < ls.len() {
                assert(ls2[k] == ls[k]);
            }
        }
    }
}

proof fn lemma_clash_push(p: Problem, ls: Seq<Lesson>, l: Lesson)
    requires
        clash_free(p, ls),
        forall|k: int|
            0 <= k < ls.len() && (#[trigger] ls[k]).slot == l.slot ==> {
                &&& lesson_req(p, ls[k]).teacher != lesson_req(p, l).teacher
                &&& lesson_req(p, ls[k]).class != lesson_req(p, l).class
                &&& ls[k].room != l.room
            },
    ensures
        clash_free(p, ls.push(l)),
{
    let ls2 = ls.push(l);
    assert forall|j: int, k: int|
        #![trigger ls2[j], ls2[k]]
        0 <= j < k < ls2.len() && ls2[j].slot == ls2[k].slot implies {
            &&& lesson_req(p, ls2[j]).teacher != lesson_req(p, ls2[k]).teacher
            &&& lesson_req(p, ls2[j]).class != lesson_req(p, ls2[k]).class
            &&& ls2[j].room != ls2[k].room
        } by {
        assert(ls2[j] == ls[j]);
        if k < ls.len() {
            assert(ls2[k] == ls[k]);
        } else {
            assert(ls2[k] == l);
        }
    }
}

/// Nothing of an entity that is free in a slot is there.
proof fn lemma_free_means_absent(
    busy: Seq<Bitmap>,
    n: nat,
    ls: Seq<Lesson>,
    key: spec_fn(Lesson) -> int,
    e: int,
    s: int,
)
    requires
        busy_agrees(busy, n, ls, key),
        0 <= e < n,
        0 <= s < fixture_slots(),
        !busy[e]@[s],
    ensures
        forall|k: int| 0 <= k < ls.len() && key(#[trigger] ls[k]) == e ==> ls[k].slot.0 != s,
{
}

/// A requirement's slots on a day are no more than its class's lessons of its
/// subject on that day.
proof fn lemma_day_slots_bounded(p: Problem, ls: Seq<Lesson>, i: int, d: int)
    requires
        0 <= i < p.requirements@.len(),
    ensures
        slots_on_day(p.schedule, requirement_slots(p, ls, i), d).len() <= count_lessons(
            ls,
            subject_on_day(
                p,
                p.requirements@[i].class.0 as int,
                p.requirements@[i].subject.0 as int,
                d,
            ),
        ),
    decreases ls.len(),
{
    if ls.len() > 0 {
        lemma_day_slots_bounded(p, ls.drop_last(), i, d);
        let l = ls.last();
        let rs = requirement_slots(p, ls.drop_last(), i);
        if (of_requirement(p, i))(l) {
            assert(requirement_slots(p, ls, i) == rs.push(l.slot.0));
            assert(rs.push(l.slot.0).drop_last() =~= rs);
        }
    }
}

/// How a requirement's slots on a day grow by one lesson.
proof fn lemma_day_slots_push(p: Problem, ls: Seq<Lesson>, l: Lesson, i: int, d: int)
    ensures
        slots_on_day(p.schedule, requirement_slots(p, ls.push(l), i), d) == if (of_requirement(
            p,
            i,
        ))(l) && p.schedule.day_of(l.slot) == d {
            slots_on_day(p.schedule, requirement_slots(p, ls, i), d).push(l.slot.0)
        } else {
            slots_on_day(p.schedule, requirement_slots(p, ls, i), d)
        },
{
    assert(ls.push(l).drop_last() =~= ls);
    let rs = requirement_slots(p, ls, i);
    if (of_requirement(p, i))(l) {
        assert(rs.push(l.slot.0).drop_last() =~= rs);
    }
}

proof fn lemma_busy_push2(
    busy0: Seq<Bitmap>,
    busy1: Seq<Bitmap>,
    n: nat,
    ls: Seq<Lesson>,
    l0: Lesson,
    l1: Lesson,
    key: spec_fn(Lesson) -> int,
)
    requires
        busy_agrees(busy0, n, ls, key),
        0 <= key(l0) < n,
        key(l1) == key(l0),
        l0.slot.0 < fixture_slots(),
        l1.slot.0 < fixture_slots(),
        busy1.len() == n,
        forall|e: int| 0 <= e < n && e != key(l0) ==> (#[trigger] busy1[e])@ == busy0[e]@,
        busy1[key(l0)]@ == busy0[key(l0)]@.update(l0.slot.0 as int, true).update(
            l1.slot.0 as int,
            true,
        ),
    ensures
        busy_agrees(busy1, n, ls.push(l0).push(l1), key),
{
    let ls2 = ls.push(l0).push(l1);
    assert forall|k: int| 0 <= k < n implies (#[trigger] busy1[k])@.len() == fixture_slots() by {
        assert(busy0[k]@.len() == fixture_slots());
    }
    assert forall|e: int, s: int| 0 <= e < n && 0 <= s < fixture_slots() implies ((
    #[trigger] busy1[e]@[s]) <==> exists|k: int|
        0 <= k < ls2.len() && key(#[trigger] ls2[k]) == e && ls2[k].slot.0 == s) by {
        assert(busy0[e]@[s] <==> exists|k: int|
            0 <= k < ls.len() && key(#[trigger] ls[k]) == e && ls[k].slot.0 == s);
        if exists|k: int| 0 <= k < ls.len() && key(#[trigger] ls[k]) == e && ls[k].slot.0 == s {
            let k = choose|k: int| 0 <= k < ls.len() && key(#[trigger] ls[k]) == e && ls[k].slot.0 == s;
            assert(ls2[k] == ls[k]);
        }
        if e == key(l0) && s == l0.slot.0 {
            assert(ls2[ls.len() as int] == l0);
        }
        if e == key(l0) && s == l1.slot.0 {
            assert(ls2[ls.len() as int + 1] == l1);
        }
        if exists|k: int| 0 <= k < ls2.len() && key(#[trigger] ls2[k]) == e && ls2[k].slot.0 == s {
            let k = choose|k: int| 0 <= k < ls2.len() && key(#[trigger] ls2[k]) == e && ls2[k].slot.0 == s;
            if k < ls.len() {
                assert(ls2[k] == ls[k]);
            } else if k == ls.len() {
                assert(ls2[k] == l0);
            } else {
                assert(ls2[k] == l1);
            }
        }
    }
}

/// The lesson of requirement `rid` in slot `s`, in the room the requirement
/// prescribes.
spec fn fixture_lesson(p: Problem, rid: int, s: int) -> Lesson {
    let r = p.requirements@[rid];
    Lesson {
        requirement: r.id,
        slot: Slot(s as u32),
        room: r.room_for(p.classes@[r.class.0 as int]),
    }
}

/// A lesson of the fixture that breaks nothing on its own.
proof fn lemma_fixture_lesson_ok(p: Problem, rid: int, s: int)
    requires
        fixture_shape(p),
        0 <= rid < p.requirements@.len(),
        0 <= s < fixture_slots(),
        !p.teachers@[p.requirements@[rid].teacher.0 as int].unavailable@[s],
    ensures
        lesson_ok(p, fixture_lesson(p, rid, s)),
        lesson_req(p, fixture_lesson(p, rid, s)) == p.requirements@[rid],
{
    let r = p.requirements@[rid];
    assert(requirement_shape(r, rid));
    assert(rid / 12 < 20) by (nonlinear_arith)
        requires
            0 <= rid < 240,
    ;
}

/// Placing a legal double `(s0, s0 + 1)` of a double-period requirement on a
/// day where its class has no lesson of its subject, with the class, the
/// teacher and the room free in both slots, keeps the placement valid.
proof fn lemma_double_step(p: Problem, pl0: Placement, pl1: Placement, rid: int, day: int, period: int)
    requires
        placement_valid(pl0, p),
        fixture_shape(p),
        0 <= rid < p.requirements@.len(),
        p.requirements@[rid].double_period,
        0 <= day < N_DAYS,
        0 <= period < PERIODS_PER_DAY - 1,
        period != LUNCH_AFTER - 1,
        ({
            let r = p.requirements@[rid];
            let c = r.class.0 as int;
            let t = r.teacher.0 as int;
            let rm = r.room_for(p.classes@[c]).0 as int;
            let subj = r.subject.0 as int;
            let s0 = day * PERIODS_PER_DAY + period;
            let s1 = s0 + 1;
            let di = flat_index(c, subj, day, N_SUBJECTS as int, N_DAYS as int);
            &&& pl0.daily@[di] == 0
            &&& pl1.daily@ == pl0.daily@.update(di, 2u8)
            &&& !pl0.class_busy@[c]@[s0] && !pl0.class_busy@[c]@[s1]
            &&& !pl0.teacher_busy@[t]@[s0] && !pl0.teacher_busy@[t]@[s1]
            &&& !pl0.room_busy@[rm]@[s0] && !pl0.room_busy@[rm]@[s1]
            &&& !p.teachers@[t].unavailable@[s0] && !p.teachers@[t].unavailable@[s1]
            &&& pl1.class_busy@.len() == N_CLASSES
            &&& forall|e: int|
                0 <= e < N_CLASSES && e != c ==> (#[trigger] pl1.class_busy@[e])@
                    == pl0.class_busy@[e]@
            &&& pl1.class_busy@[c]@ == pl0.class_busy@[c]@.update(s0, true).update(s1, true)
            &&& pl1.teacher_busy@.len() == N_SUBJECTS * TEACHERS_PER_SUBJECT
            &&& forall|e: int|
                0 <= e < N_SUBJECTS * TEACHERS_PER_SUBJECT && e != t ==> (
                #[trigger] pl1.teacher_busy@[e])@ == pl0.teacher_busy@[e]@
            &&& pl1.teacher_busy@[t]@ == pl0.teacher_busy@[t]@.update(s0, true).update(s1, true)
            &&& pl1.room_busy@.len() == N_ROOMS
            &&& forall|e: int|
                0 <= e < N_ROOMS && e != rm ==> (#[trigger] pl1.room_busy@[e])@
                    == pl0.room_busy@[e]@
            &&& pl1.room_busy@[rm]@ == pl0.room_busy@[rm]@.update(s0, true).update(s1, true)
            &&& pl1.lessons@ == pl0.lessons@.push(fixture_lesson(p, rid, s0)).push(
                fixture_lesson(p, rid, s1),
            )
        }),
    ensures
        placement_valid(pl1, p),
        forall|i: int|
            0 <= i < p.requirements@.len() ==> #[trigger] count_lessons(
                pl1.lessons@,
                of_requirement(p, i),
            ) == count_lessons(pl0.lessons@, of_requirement(p, i)) + if i == rid {
                2nat
            } else {
                0nat
            },
{
    let r = p.requirements@[rid];
    let c = r.class.0 as int;
    let t = r.teacher.0 as int;
    let rm = r.room_for(p.classes@[c]).0 as int;
    let subj = r.subject.0 as int;
    let s0 = day * PERIODS_PER_DAY + period;
    let s1 = s0 + 1;
    let di = flat_index(c, subj, day, N_SUBJECTS as int, N_DAYS as int);
    let ls = pl0.lessons@;
    let l0 = fixture_lesson(p, rid, s0);
    let l1 = fixture_lesson(p, rid, s1);
    let ls1 = ls.push(l0);
    let ls2 = ls1.push(l1);
    assert(requirement_shape(r, rid));
    assert(rid / 12 < 20) by (nonlinear_arith)
        requires
            0 <= rid < 240,
    ;
    lemma_slot_roundtrip(p.schedule, day as u8, period as u8);
    lemma_slot_roundtrip(p.schedule, day as u8, (period + 1) as u8);
    assert(s1 < fixture_slots());
    lemma_fixture_lesson_ok(p, rid, s0);
    lemma_fixture_lesson_ok(p, rid, s1);
    assert(0 <= rm < N_ROOMS);

    // Each lesson is well placed.
    assert forall|k: int| 0 <= k < ls2.len() implies lesson_ok(p, #[trigger] ls2[k]) by {
        if k < ls.len() {
            assert(ls2[k] == ls[k]);
        } else if k == ls.len() {
            assert(ls2[k] == l0);
        } else {
            assert(ls2[k] == l1);
        }
    }

    // No clash.
    lemma_free_means_absent(pl0.class_busy@, N_CLASSES as nat, ls, class_key(p), c, s0);
    lemma_free_means_absent(pl0.class_busy@, N_CLASSES as nat, ls, class_key(p), c, s1);
    lemma_free_means_absent(
        pl0.teacher_busy@,
        (N_SUBJECTS * TEACHERS_PER_SUBJECT) as nat,
        ls,
        teacher_key(p),
        t,
        s0,
    );
    lemma_free_means_absent(
        pl0.teacher_busy@,
        (N_SUBJECTS * TEACHERS_PER_SUBJECT) as nat,
        ls,
        teacher_key(p),
        t,
        s1,
    );
    lemma_free_means_absent(pl0.room_busy@, N_ROOMS as nat, ls, room_key(), rm, s0);
    lemma_free_means_absent(pl0.room_busy@, N_ROOMS as nat, ls, room_key(), rm, s1);
    assert forall|k: int| 0 <= k < ls.len() && (#[trigger] ls[k]).slot == l0.slot implies {
        &&& lesson_req(p, ls[k]).teacher != lesson_req(p, l0).teacher
        &&& lesson_req(p, ls[k]).class != lesson_req(p, l0).class
        &&& ls[k].room != l0.room
    } by {
        assert((class_key(p))(ls[k]) != c);
        assert((teacher_key(p))(ls[k]) != t);
        assert((room_key())(ls[k]) != rm);
    }
    lemma_clash_push(p, ls, l0);
    assert forall|k: int| 0 <= k < ls1.len() && (#[trigger] ls1[k]).slot == l1.slot implies {
        &&& lesson_req(p, ls1[k]).teacher != lesson_req(p, l1).teacher
        &&& lesson_req(p, ls1[k]).class != lesson_req(p, l1).class
        &&& ls1[k].room != l1.room
    } by {
        if k < ls.len() {
            assert(ls1[k] == ls[k]);
            assert((class_key(p))(ls[k]) != c);
            assert((teacher_key(p))(ls[k]) != t);
            assert((room_key())(ls[k]) != rm);
        } else {
            assert(ls1[k] == l0);
        }
    }
    lemma_clash_push(p, ls1, l1);

    // Occupancy.
    lemma_busy_push2(pl0.class_busy@, pl1.class_busy@, N_CLASSES as nat, ls, l0, l1, class_key(p));
    lemma_busy_push2(
        pl0.teacher_busy@,
        pl1.teacher_busy@,
        (N_SUBJECTS * TEACHERS_PER_SUBJECT) as nat,
        ls,
        l0,
        l1,
        teacher_key(p),
    );
    lemma_busy_push2(pl0.room_busy@, pl1.room_busy@, N_ROOMS as nat, ls, l0, l1, room_key());

    // Daily counts.
    lemma_count_push(ls, l0);
    lemma_count_push(ls1, l1);
    lemma_flat_index(c, subj, day, N_CLASSES as int, N_SUBJECTS as int, N_DAYS as int);
    assert forall|c2: int, s2: int, d2: int|
        0 <= c2 < N_CLASSES && 0 <= s2 < N_SUBJECTS && 0 <= d2 < N_DAYS implies #[trigger] pl1.daily@[flat_index(
            c2,
            s2,
            d2,
            N_SUBJECTS as int,
            N_DAYS as int,
        )] == count_lessons(ls2, subject_on_day(p, c2, s2, d2)) by {
        lemma_flat_index(c2, s2, d2, N_CLASSES as int, N_SUBJECTS as int, N_DAYS as int);
        if flat_index(c2, s2, d2, N_SUBJECTS as int, N_DAYS as int) == di {
            lemma_flat_index_injective(
                c2,
                s2,
                d2,
                c,
                subj,
                day,
                N_CLASSES as int,
                N_SUBJECTS as int,
                N_DAYS as int,
            );
        }
    }
    assert forall|k: int| 0 <= k < pl1.daily@.len() implies #[trigger] pl1.daily@[k] <= 2 by {
        assert(pl0.daily@[k] <= 2);
    }

    // The double's day now holds exactly this double.
    assert forall|i: int, d: int|
        0 <= i < p.requirements@.len() && p.requirements@[i].double_period && 0 <= d < N_DAYS
            implies day_pairing_ok(
        p.schedule,
        #[trigger] slots_on_day(p.schedule, requirement_slots(p, ls2, i), d),
    ) by {
        lemma_day_slots_push(p, ls, l0, i, d);
        lemma_day_slots_push(p, ls1, l1, i, d);
        assert(day_pairing_ok(p.schedule, slots_on_day(p.schedule, requirement_slots(p, ls, i), d)));
        if i == rid && d == day {
            lemma_day_slots_bounded(p, ls, i, d);
            assert(count_lessons(ls, subject_on_day(p, c, subj, day)) == 0);
            let e = slots_on_day(p.schedule, requirement_slots(p, ls, i), d);
            assert(e.len() == 0);
            assert(e.push(s0 as u32).push(s1 as u32) =~= seq![s0 as u32, s1 as u32]);
        }
    }

    // Coverage.
    assert forall|i: int| 0 <= i < p.requirements@.len() implies #[trigger] count_lessons(
        ls2,
        of_requirement(p, i),
    ) == count_lessons(ls, of_requirement(p, i)) + if i == rid {
        2nat
    } else {
        0nat
    } by {
        assert(r.id.0 == rid);
    }
}

/// Placing a single lesson of a requirement without doubles where its class
/// has fewer than two lessons of its subject that day, with the class, the
/// teacher and the room free, keeps the placement valid.
proof fn lemma_single_step(p: Problem, pl0: Placement, pl1: Placement, rid: int, s: int)
    requires
        placement_valid(pl0, p),
        fixture_shape(p),
        0 <= rid < p.requirements@.len(),
        !p.requirements@[rid].double_period,
        0 <= s < fixture_slots(),
        ({
            let r = p.requirements@[rid];
            let c = r.class.0 as int;
            let t = r.teacher.0 as int;
            let rm = r.room_for(p.classes@[c]).0 as int;
            let subj = r.subject.0 as int;
            let day = p.schedule.day_of(Slot(s as u32)) as int;
            let di = flat_index(c, subj, day, N_SUBJECTS as int, N_DAYS as int);
            &&& pl0.daily@[di] < 2
            &&& pl1.daily@ == pl0.daily@.update(di, (pl0.daily@[di] + 1) as u8)
            &&& !pl0.class_busy@[c]@[s]
            &&& !pl0.teacher_busy@[t]@[s]
            &&& !pl0.room_busy@[rm]@[s]
            &&& !p.teachers@[t].unavailable@[s]
            &&& pl1.class_busy@.len() == N_CLASSES
            &&& forall|e: int|
                0 <= e < N_CLASSES && e != c ==> (#[trigger] pl1.class_busy@[e])@
                    == pl0.class_busy@[e]@
            &&& pl1.class_busy@[c]@ == pl0.class_busy@[c]@.update(s, true)
            &&& pl1.teacher_busy@.len() == N_SUBJECTS * TEACHERS_PER_SUBJECT
            &&& forall|e: int|
                0 <= e < N_SUBJECTS * TEACHERS_PER_SUBJECT && e != t ==> (
                #[trigger] pl1.teacher_busy@[e])@ == pl0.teacher_busy@[e]@
            &&& pl1.teacher_busy@[t]@ == pl0.teacher_busy@[t]@.update(s, true)
            &&& pl1.room_busy@.len() == N_ROOMS
            &&& forall|e: int|
                0 <= e < N_ROOMS && e != rm ==> (#[trigger] pl1.room_busy@[e])@
                    == pl0.room_busy@[e]@
            &&& pl1.room_busy@[rm]@ == pl0.room_busy@[rm]@.update(s, true)
            &&& pl1.lessons@ == pl0.lessons@.push(fixture_lesson(p, rid, s))
        }),
    ensures
        placement_valid(pl1, p),
        forall|i: int|
            0 <= i < p.requirements@.len() ==> #[trigger] count_lessons(
                pl1.lessons@,
                of_requirement(p, i),
            ) == count_lessons(pl0.lessons@, of_requirement(p, i)) + if i == rid {
                1nat
            } else {
                0nat
            },
{
    let r = p.requirements@[rid];
    let c = r.class.0 as int;
    let t = r.teacher.0 as int;
    let rm = r.room_for(p.classes@[c]).0 as int;
    let subj = r.subject.0 as int;
    let day = p.schedule.day_of(Slot(s as u32)) as int;
    let di = flat_index(c, subj, day, N_SUBJECTS as int, N_DAYS as int);
    let ls = pl0.lessons@;
    let l0 = fixture_lesson(p, rid, s);
    let ls1 = ls.push(l0);
    assert(requirement_shape(r, rid));
    assert(rid / 12 < 20) by (nonlinear_arith)
        requires
            0 <= rid < 240,
    ;
    assert(day < 5) by (nonlinear_arith)
        requires
            0 <= s < 40,
            day == s / 8,
    ;
    lemma_fixture_lesson_ok(p, rid, s);
    assert(0 <= rm < N_ROOMS);
    assert forall|k: int| 0 <= k < ls1.len() implies lesson_ok(p, #[trigger] ls1[k]) by {
        if k < ls.len() {
            assert(ls1[k] == ls[k]);
        } else {
            assert(ls1[k] == l0);
        }
    }
    lemma_free_means_absent(pl0.class_busy@, N_CLASSES as nat, ls, class_key(p), c, s);
    lemma_free_means_absent(
        pl0.teacher_busy@,
        (N_SUBJECTS * TEACHERS_PER_SUBJECT) as nat,
        ls,
        teacher_key(p),
        t,
        s,
    );
    lemma_free_means_absent(pl0.room_busy@, N_ROOMS as nat, ls, room_key(), rm, s);
    assert forall|k: int| 0 <= k < ls.len() && (#[trigger] ls[k]).slot == l0.slot implies {
        &&& lesson_req(p, ls[k]).teacher != lesson_req(p, l0).teacher
        &&& lesson_req(p, ls[k]).class != lesson_req(p, l0).class
        &&& ls[k].room != l0.room
    } by {
        assert((class_key(p))(ls[k]) != c);
        assert((teacher_key(p))(ls[k]) != t);
        assert((room_key())(ls[k]) != rm);
    }
    lemma_clash_push(p, ls, l0);
    lemma_busy_push(pl0.class_busy@, pl1.class_busy@, N_CLASSES as nat, ls, l0, class_key(p));
    lemma_busy_push(
        pl0.teacher_busy@,
        pl1.teacher_busy@,
        (N_SUBJECTS * TEACHERS_PER_SUBJECT) as nat,
        ls,
        l0,
        teacher_key(p),
    );
    lemma_busy_push(pl0.room_busy@, pl1.room_busy@, N_ROOMS as nat, ls, l0, room_key());
    lemma_count_push(ls, l0);
    lemma_flat_index(c, subj, day, N_CLASSES as int, N_SUBJECTS as int, N_DAYS as int);
    assert forall|c2: int, s2: int, d2: int|
        0 <= c2 < N_CLASSES && 0 <= s2 < N_SUBJECTS && 0 <= d2 < N_DAYS implies #[trigger] pl1.daily@[flat_index(
            c2,
            s2,
            d2,
            N_SUBJECTS as int,
            N_DAYS as int,
        )] == count_lessons(ls1, subject_on_day(p, c2, s2, d2)) by {
        lemma_flat_index(c2, s2, d2, N_CLASSES as int, N_SUBJECTS as int, N_DAYS as int);
        if flat_index(c2, s2, d2, N_SUBJECTS as int, N_DAYS as int) == di {
            lemma_flat_index_injective(
                c2,
                s2,
                d2,
                c,
                subj,
                day,
                N_CLASSES as int,
                N_SUBJECTS as int,
                N_DAYS as int,
            );
        }
    }
    assert forall|k: int| 0 <= k < pl1.daily@.len() implies #[trigger] pl1.daily@[k] <= 2 by {
        assert(pl0.daily@[k] <= 2);
    }
    assert forall|i: int, d: int|
        0 <= i < p.requirements@.len() && p.requirements@[i].double_period && 0 <= d < N_DAYS
            implies day_pairing_ok(
        p.schedule,
        #[trigger] slots_on_day(p.schedule, requirement_slots(p, ls1, i), d),
    ) by {
        lemma_day_slots_push(p, ls, l0, i, d);
        assert(day_pairing_ok(p.schedule, slots_on_day(p.schedule, requirement_slots(p, ls, i), d)));
    }
    assert forall|i: int| 0 <= i < p.requirements@.len() implies #[trigger] count_lessons(
        ls1,
        of_requirement(p, i),
    ) == count_lessons(ls, of_requirement(p, i)) + if i == rid {
        1nat
    } else {
        0nat
    } by {
        assert(r.id.0 == rid);
    }
}

fn new_placement(nslots: usize, Ghost(p): Ghost<Problem>) -> (pl: Placement)
    requires
        nslots == fixture_slots(),
        fixture_shape(p),
    ensures
        placement_valid(pl, p),
        pl.lessons@.len() == 0,
{
    let ncells = N_CLASSES * N_SUBJECTS * N_DAYS as usize;
    let mut daily: Vec<u8> = Vec::new();
    let mut k: usize = 0;
    while k < ncells
        invariant
            ncells == N_CLASSES * N_SUBJECTS * (N_DAYS as int),
            k <= ncells,
            daily@.len() == k,
            forall|j: int| 0 <= j < k ==> daily@[j] == 0u8,
        decreases ncells - k,
    {
        daily.push(0u8);
        k = k + 1;
    }
    let pl = Placement {
        class_busy: blank_bitmaps(N_CLASSES, nslots),
        teacher_busy: blank_bitmaps(N_SUBJECTS * TEACHERS_PER_SUBJECT, nslots),
        room_busy: blank_bitmaps(N_ROOMS, nslots),
        daily,
        lessons: Vec::new(),
    };
    proof {
        assert forall|c: int, subj: int, d: int|
            0 <= c < N_CLASSES && 0 <= subj < N_SUBJECTS && 0 <= d < N_DAYS implies #[trigger] pl.daily@[flat_index(
                c,
                subj,
                d,
                N_SUBJECTS as int,
                N_DAYS as int,
            )] == count_lessons(pl.lessons@, subject_on_day(p, c, subj, d)) by {
            lemma_flat_index(c, subj, d, N_CLASSES as int, N_SUBJECTS as int, N_DAYS as int);
        }
        assert forall|i: int, d: int|
            0 <= i < p.requirements@.len() && p.requirements@[i].double_period && 0 <= d < N_DAYS
                implies day_pairing_ok(
            p.schedule,
            #[trigger] slots_on_day(p.schedule, requirement_slots(p, pl.lessons@, i), d),
        ) by {
            assert(requirement_slots(p, pl.lessons@, i).len() == 0);
        }
    }
    pl
}

/// Position of (class, subject, day) in the daily table.
fn daily_index(class: usize, subject: usize, day: usize) -> (i: usize)
    requires
        class < N_CLASSES,
        subject < N_SUBJECTS,
        day < N_DAYS,
    ensures
        i == flat_index(class as int, subject as int, day as int, N_SUBJECTS as int, N_DAYS as int),
        i < N_CLASSES * N_SUBJECTS * (N_DAYS as int),
{
    proof {
        lemma_flat_index(
            class as int,
            subject as int,
            day as int,
            N_CLASSES as int,
            N_SUBJECTS as int,
            N_DAYS as int,
        );
    }
    (class * N_SUBJECTS + subject) * N_DAYS as usize + day
}

/// The start period of the `j`-th double of a day: 0, 1, 2, 4, 5, 6.
pub open spec fn double_start_period(j: int) -> u8 {
    if j < 3 {
        j as u8
    } else {
        (j + 1) as u8
    }
}

/// The candidate starts of a double period, day by day: every period whose
/// successor is on the same side of lunch.
pub open spec fn double_start_seq() -> Seq<(u8, u8)> {
    Seq::new(30, |k: int| ((k / 6) as u8, double_start_period(k % 6)))
}

/// The candidate starts of a double period: every day, every period whose
/// successor is on the same side of lunch.
fn double_starts() -> (v: Vec<(u8, u8)>)
    ensures
        v@ == double_start_seq(),
        forall|k: int|
            0 <= k < v@.len() ==> (#[trigger] v@[k]).0 < N_DAYS && v@[k].1 < PERIODS_PER_DAY - 1
                && v@[k].1 != LUNCH_AFTER - 1,
{
    let mut v: Vec<(u8, u8)> = Vec::new();
    let mut d: u8 = 0;
    while d < N_DAYS
        invariant
            d <= N_DAYS,
            v@.len() == 6 * d,
            forall|k: int|
                0 <= k < v@.len() ==> #[trigger] v@[k] == ((k / 6) as u8, double_start_period(
                    k % 6,
                )),
        decreases N_DAYS - d,
    {
        let ghost before = v@;
        v.push((d, 0));
        v.push((d, 1));
        v.push((d, 2));
        v.push((d, 4));
        v.push((d, 5));
        v.push((d, 6));
        proof {
            assert forall|k: int| 0 <= k < v@.len() implies #[trigger] v@[k] == ((k / 6) as u8,
                double_start_period(k % 6)) by {
                if k < 6 * d {
                    assert(v@[k] == before[k]);
                } else {
                    assert(k / 6 == d && k % 6 == k - 6 * d) by (nonlinear_arith)
                        requires
                            6 * d <= k < 6 * d + 6,
                    ;
                }
            }
        }
        d = d + 1;
    }
    proof {
        assert(v@ =~= double_start_seq());
        assert forall|k: int| 0 <= k < v@.len() implies (#[trigger] v@[k]).0 < N_DAYS && v@[k].1
            < PERIODS_PER_DAY - 1 && v@[k].1 != LUNCH_AFTER - 1 by {
            assert(k / 6 < 5 && 0 <= k % 6 < 6) by (nonlinear_arith)
                requires
                    0 <= k < 30,
            ;
        }
    }
    v
}

// ---------------------------------------------------------------------------
// The placement steps, on the lessons placed so far.
// ---------------------------------------------------------------------------

/// The room a fixture requirement is taught in: its pinned room, else the
/// room of its class (class `c` owns room `c`).
pub open spec fn fixture_room(r: Requirement) -> int {
    match r.room {
        Some(x) => x.0 as int,
        None => r.class.0 as int,
    }
}

/// The unavailable slots of every teacher of `p`.
pub open spec fn teacher_unavailability(p: Problem) -> Seq<Seq<bool>> {
    Seq::new(p.teachers@.len(), |t: int| p.teachers@[t].unavailable@)
}

/// The class of a lesson, read from the requirements `reqs`.
pub open spec fn class_of(reqs: Seq<Requirement>) -> spec_fn(Lesson) -> int {
    |l: Lesson| reqs[l.requirement.0 as int].class.0 as int
}

/// The teacher of a lesson, read from the requirements `reqs`.
pub open spec fn teacher_of(reqs: Seq<Requirement>) -> spec_fn(Lesson) -> int {
    |l: Lesson| reqs[l.requirement.0 as int].teacher.0 as int
}

/// The room of a lesson.
pub open spec fn room_of() -> spec_fn(Lesson) -> int {
    |l: Lesson| l.room.0 as int
}

/// Some lesson of `ls` holds entity `e` (by `key`) in slot `s`.
pub open spec fn taken(ls: Seq<Lesson>, key: spec_fn(Lesson) -> int, e: int, s: int) -> bool {
    exists|k: int| 0 <= k < ls.len() && key(#[trigger] ls[k]) == e && ls[k].slot.0 == s
}

/// Lessons of `ls` of class `c` and subject `subj` on day `d`.
pub open spec fn day_lessons(reqs: Seq<Requirement>, ls: Seq<Lesson>, c: int, subj: int, d: int) -> nat {
    count_lessons(
        ls,
        |l: Lesson|
            reqs[l.requirement.0 as int].class.0 == c && reqs[l.requirement.0 as int].subject.0
                == subj && l.slot.0 as int / (PERIODS_PER_DAY as int) == d,
    )
}

/// The lesson of requirement `rid` in slot `s`, in its room.
pub open spec fn planned_lesson(reqs: Seq<Requirement>, rid: int, s: int) -> Lesson {
    Lesson {
        requirement: reqs[rid].id,
        slot: Slot(s as u32),
        room: RoomId(fixture_room(reqs[rid]) as u32),
    }
}

/// Requirement `rid` can take the double starting at `period` of `day`: its
/// class has no lesson of its subject that day, and its class, its teacher
/// and its room are free (and the teacher available) in both slots.
pub open spec fn double_fits(
    unav: Seq<Seq<bool>>,
    reqs: Seq<Requirement>,
    ls: Seq<Lesson>,
    rid: int,
    day: int,
    period: int,
) -> bool {
    let r = reqs[rid];
    let t = r.teacher.0 as int;
    let s0 = day * PERIODS_PER_DAY + period;
    let s1 = s0 + 1;
    &&& day_lessons(reqs, ls, r.class.0 as int, r.subject.0 as int, day) == 0
    &&& !taken(ls, class_of(reqs), r.class.0 as int, s0)
    &&& !taken(ls, class_of(reqs), r.class.0 as int, s1)
    &&& !taken(ls, teacher_of(reqs), t, s0)
    &&& !taken(ls, teacher_of(reqs), t, s1)
    &&& !unav[t][s0]
    &&& !unav[t][s1]
    &&& !taken(ls, room_of(), fixture_room(r), s0)
    &&& !taken(ls, room_of(), fixture_room(r), s1)
}

/// The lessons after placing a double of `rid` at the first start of
/// `cands`, from position `k` on, that fits; `None` when none does.
pub open spec fn first_double(
    unav: Seq<Seq<bool>>,
    reqs: Seq<Requirement>,
    ls: Seq<Lesson>,
    rid: int,
    cands: Seq<(u8, u8)>,
    k: int,
) -> Option<Seq<Lesson>>
    decreases cands.len() - k,
{
    if k < 0 || k >= cands.len() {
        None
    } else {
        let day = cands[k].0 as int;
        let period = cands[k].1 as int;
        if double_fits(unav, reqs, ls, rid, day, period) {
            let s0 = day * PERIODS_PER_DAY + period;
            Some(ls.push(planned_lesson(reqs, rid, s0)).push(planned_lesson(reqs, rid, s0 + 1)))
        } else {
            first_double(unav, reqs, ls, rid, cands, k + 1)
        }
    }
}

/// One try to place a double of `rid` from generator state `st`: the starts
/// in shuffled order, the first that fits taken. Gives the lessons after it
/// (`None` when no start fits) and the generator state after it.
pub open spec fn double_attempt(
    unav: Seq<Seq<bool>>,
    reqs: Seq<Requirement>,
    ls: Seq<Lesson>,
    st: u64,
    rid: int,
) -> (Option<Seq<Lesson>>, u64) {
    let (cands, st1) = shuffled(double_start_seq(), st);
    (first_double(unav, reqs, ls, rid, cands, 0), st1)
}

/// Requirement `rid` can take slot `s`: its class has fewer than two lessons
/// of its subject that day, and its class, its teacher and its room are free
/// (and the teacher available) there.
pub open spec fn single_fits(
    unav: Seq<Seq<bool>>,
    reqs: Seq<Requirement>,
    ls: Seq<Lesson>,
    rid: int,
    s: int,
) -> bool {
    let r = reqs[rid];
    let t = r.teacher.0 as int;
    &&& day_lessons(reqs, ls, r.class.0 as int, r.subject.0 as int, s / (PERIODS_PER_DAY as int))
        < 2
    &&& !taken(ls, class_of(reqs), r.class.0 as int, s)
    &&& !taken(ls, teacher_of(reqs), t, s)
    &&& !unav[t][s]
    &&& !taken(ls, room_of(), fixture_room(r), s)
}

/// The lessons after placing a lesson of `rid` in the first slot of `cands`,
/// from position `k` on, that fits; `None` when none does.
pub open spec fn first_single(
    unav: Seq<Seq<bool>>,
    reqs: Seq<Requirement>,
    ls: Seq<Lesson>,
    rid: int,
    cands: Seq<usize>,
    k: int,
) -> Option<Seq<Lesson>>
    decreases cands.len() - k,
{
    if k < 0 || k >= cands.len() {
        None
    } else if single_fits(unav, reqs, ls, rid, cands[k] as int) {
        Some(ls.push(planned_lesson(reqs, rid, cands[k] as int)))
    } else {
        first_single(unav, reqs, ls, rid, cands, k + 1)
    }
}

/// Every slot of the week, in order.
pub open spec fn all_slots() -> Seq<usize> {
    Seq::new(fixture_slots(), |k: int| k as usize)
}

/// One try to place a single lesson of `rid` from generator state `st`: the
/// slots in shuffled order, the first that fits taken. Gives the lessons
/// after it (`None` when no slot fits) and the generator state after it.
pub open spec fn single_attempt(
    unav: Seq<Seq<bool>>,
    reqs: Seq<Requirement>,
    ls: Seq<Lesson>,
    st: u64,
    rid: int,
) -> (Option<Seq<Lesson>>, u64) {
    let (cands, st1) = shuffled(all_slots(), st);
    (first_single(unav, reqs, ls, rid, cands, 0), st1)
}

/// `n` doubles of requirement `rid` placed in turn from state `st`: the
/// lessons and the state after them; `None` as soon as one finds no room.
pub open spec fn doubles_rep(
    unav: Seq<Seq<bool>>,
    reqs: Seq<Requirement>,
    ls: Seq<Lesson>,
    st: u64,
    rid: int,
    n: nat,
) -> Option<(Seq<Lesson>, u64)>
    decreases n,
{
    if n == 0 {
        Some((ls, st))
    } else {
        let (r, st1) = double_attempt(unav, reqs, ls, st, rid);
        match r {
            None => None,
            Some(ls1) => doubles_rep(unav, reqs, ls1, st1, rid, (n - 1) as nat),
        }
    }
}

/// `n` single lessons of requirement `rid` placed in turn from state `st`:
/// the lessons and the state after them; `None` as soon as one finds no room.
pub open spec fn singles_rep(
    unav: Seq<Seq<bool>>,
    reqs: Seq<Requirement>,
    ls: Seq<Lesson>,
    st: u64,
    rid: int,
    n: nat,
) -> Option<(Seq<Lesson>, u64)>
    decreases n,
{
    if n == 0 {
        Some((ls, st))
    } else {
        let (r, st1) = single_attempt(unav, reqs, ls, st, rid);
        match r {
            None => None,
            Some(ls1) => singles_rep(unav, reqs, ls1, st1, rid, (n - 1) as nat),
        }
    }
}

/// The double-period requirements `ds[i..]` placed in turn, each as half its
/// weekly lessons in doubles.
pub open spec fn doubles_from(
    unav: Seq<Seq<bool>>,
    reqs: Seq<Requirement>,
    ls: Seq<Lesson>,
    st: u64,
    ds: Seq<usize>,
    i: int,
) -> Option<(Seq<Lesson>, u64)>
    decreases ds.len() - i,
{
    if i >= ds.len() {
        Some((ls, st))
    } else {
        let rid = ds[i] as int;
        match doubles_rep(unav, reqs, ls, st, rid, (reqs[rid].lessons_per_week / 2) as nat) {
            None => None,
            Some((ls1, st1)) => doubles_from(unav, reqs, ls1, st1, ds, i + 1),
        }
    }
}

/// The requirements `ss[i..]` placed in turn, each as its weekly lessons one
/// by one.
pub open spec fn singles_from(
    unav: Seq<Seq<bool>>,
    reqs: Seq<Requirement>,
    ls: Seq<Lesson>,
    st: u64,
    ss: Seq<usize>,
    i: int,
) -> Option<(Seq<Lesson>, u64)>
    decreases ss.len() - i,
{
    if i >= ss.len() {
        Some((ls, st))
    } else {
        let rid = ss[i] as int;
        match singles_rep(unav, reqs, ls, st, rid, reqs[rid].lessons_per_week as nat) {
            None => None,
            Some((ls1, st1)) => singles_from(unav, reqs, ls1, st1, ss, i + 1),
        }
    }
}

/// After `x`, the double-period requirements `ds[i..]`.
pub open spec fn doubles_then(
    unav: Seq<Seq<bool>>,
    reqs: Seq<Requirement>,
    x: Option<(Seq<Lesson>, u64)>,
    ds: Seq<usize>,
    i: int,
) -> Option<(Seq<Lesson>, u64)> {
    match x {
        None => None,
        Some((ls1, st1)) => doubles_from(unav, reqs, ls1, st1, ds, i),
    }
}

/// After `x`, the requirements `ss[i..]` as single lessons.
pub open spec fn singles_then(
    unav: Seq<Seq<bool>>,
    reqs: Seq<Requirement>,
    x: Option<(Seq<Lesson>, u64)>,
    ss: Seq<usize>,
    i: int,
) -> Option<(Seq<Lesson>, u64)> {
    match x {
        None => None,
        Some((ls1, st1)) => singles_from(unav, reqs, ls1, st1, ss, i),
    }
}

/// The requirements of class `c` among the first `i`, in order (class `c`
/// owns positions `12 c .. 12 c + 12`).
pub open spec fn class_prefix(c: int, i: int) -> Seq<usize> {
    let n = if i <= c * N_SUBJECTS {
        0
    } else if i >= c * N_SUBJECTS + N_SUBJECTS {
        N_SUBJECTS as int
    } else {
        i - c * N_SUBJECTS
    };
    Seq::new(n as nat, |k: int| (c * N_SUBJECTS + k) as usize)
}

/// The double-period requirements of class `c`: its two labs.
pub open spec fn class_doubles(c: int) -> Seq<usize> {
    Seq::new(2, |k: int| (c * N_SUBJECTS + SUBJ_PHYS_LAB + k) as usize)
}

/// The other requirements of class `c`.
pub open spec fn class_singles(c: int) -> Seq<usize> {
    Seq::new(10, |k: int| (c * N_SUBJECTS + k) as usize)
}

/// Class `c`'s lessons placed from state `st`: its doubles and its singles
/// each shuffled, then the doubles placed in that order, then the singles.
pub open spec fn class_run(
    unav: Seq<Seq<bool>>,
    reqs: Seq<Requirement>,
    ls: Seq<Lesson>,
    st: u64,
    c: int,
) -> Option<(Seq<Lesson>, u64)> {
    let (ds, st1) = shuffled(class_doubles(c), st);
    let (ss, st2) = shuffled(class_singles(c), st1);
    singles_then(unav, reqs, doubles_from(unav, reqs, ls, st2, ds, 0), ss, 0)
}

/// Classes `c..` placed in turn from state `st`: the lessons in the end, or
/// `None` when some lesson finds no room.
pub open spec fn classes_from(
    unav: Seq<Seq<bool>>,
    reqs: Seq<Requirement>,
    ls: Seq<Lesson>,
    st: u64,
    c: int,
) -> Option<Seq<Lesson>>
    decreases N_CLASSES - c,
{
    if c >= N_CLASSES {
        Some(ls)
    } else {
        match class_run(unav, reqs, ls, st, c) {
            None => None,
            Some((ls1, st1)) => classes_from(unav, reqs, ls1, st1, c + 1),
        }
    }
}

/// The generator's state for seed `seed`.
pub open spec fn fixture_start(seed: u64) -> u64 {
    seed ^ 0x9E37_79B9_7F4A_7C15u64
}

/// The teachers' unavailable slots drawn for seed `seed`.
pub open spec fn fixture_unavailability(seed: u64) -> Seq<Seq<bool>> {
    teachers_upto(fixture_start(seed), fixture_slots(), (N_SUBJECTS * TEACHERS_PER_SUBJECT) as nat).0
}

/// The requirements drawn for seed `seed`, after the teachers.
pub open spec fn fixture_requirements(seed: u64) -> Seq<Requirement> {
    requirements_upto(
        teachers_upto(fixture_start(seed), fixture_slots(), (N_SUBJECTS * TEACHERS_PER_SUBJECT) as nat).1,
        (N_CLASSES * N_SUBJECTS) as nat,
    ).0
}

/// The lessons that seed `seed` places, class by class; `None` when some
/// lesson finds no room.
pub open spec fn fixture_lessons(seed: u64) -> Option<Seq<Lesson>> {
    let (unav, st1) = teachers_upto(
        fixture_start(seed),
        fixture_slots(),
        (N_SUBJECTS * TEACHERS_PER_SUBJECT) as nat,
    );
    let (reqs, load, st2) = requirements_upto(st1, (N_CLASSES * N_SUBJECTS) as nat);
    classes_from(unav, reqs, Seq::empty(), st2, 0)
}

/// Counts that agree lesson by lesson agree.
proof fn lemma_count_congruent(ls: Seq<Lesson>, f: spec_fn(Lesson) -> bool, g: spec_fn(Lesson) -> bool)
    requires
        forall|k: int| 0 <= k < ls.len() ==> f(#[trigger] ls[k]) == g(ls[k]),
    ensures
        count_lessons(ls, f) == count_lessons(ls, g),
    decreases ls.len(),
{
    if ls.len() > 0 {
        let pre = ls.drop_last();
        assert forall|k: int| 0 <= k < pre.len() implies f(#[trigger] pre[k]) == g(pre[k]) by {
            assert(pre[k] == ls[k]);
        }
        lemma_count_congruent(pre, f, g);
        assert(f(ls[ls.len() - 1]) == g(ls[ls.len() - 1]));
    }
}

/// On a valid placement, the daily table, the occupancy and the teachers'
/// availability read as the lessons placed so far say.
proof fn lemma_placement_reads(pl: Placement, p: Problem, c: int, subj: int, d: int)
    requires
        placement_valid(pl, p),
        fixture_shape(p),
        0 <= c < N_CLASSES,
        0 <= subj < N_SUBJECTS,
        0 <= d < N_DAYS,
    ensures
        pl.daily@[flat_index(c, subj, d, N_SUBJECTS as int, N_DAYS as int)] == day_lessons(
            p.requirements@,
            pl.lessons@,
            c,
            subj,
            d,
        ),
{
    let ls = pl.lessons@;
    let f = subject_on_day(p, c, subj, d);
    let g = |l: Lesson|
        p.requirements@[l.requirement.0 as int].class.0 == c
            && p.requirements@[l.requirement.0 as int].subject.0 == subj && l.slot.0 as int / (
        PERIODS_PER_DAY as int) == d;
    assert forall|k: int| 0 <= k < ls.len() implies f(#[trigger] ls[k]) == g(ls[k]) by {
        assert(lesson_ok(p, ls[k]));
        let x = ls[k].slot.0;
        assert(x / 8 < 5) by (nonlinear_arith)
            requires
                x < 40,
        ;
    }
    lemma_count_congruent(ls, f, g);
}

/// What a placement step needs to know of the requirement being placed.
spec fn step_args(
    p: Problem,
    id: RequirementId,
    class: usize,
    teacher: usize,
    subject: usize,
    room: usize,
) -> bool {
    let r = p.requirements@[id.0 as int];
    &&& id.0 < p.requirements@.len()
    &&& r.id == id
    &&& class == r.class.0
    &&& teacher == r.teacher.0
    &&& subject == r.subject.0
    &&& room == r.room_for(p.classes@[class as int]).0
}

/// Tries to place one double period of a requirement, in random order over
/// the candidate starts; returns whether it found room.
fn place_double(
    pl: &mut Placement,
    rng: &mut Rng,
    schedule: &WeekSchedule,
    teachers: &Vec<Teacher>,
    id: RequirementId,
    class: usize,
    teacher: usize,
    subject: usize,
    room: usize,
    Ghost(p): Ghost<Problem>,
) -> (placed: bool)
    requires
        placement_valid(*old(pl), p),
        fixture_shape(p),
        *schedule == p.schedule,
        teachers@ == p.teachers@,
        step_args(p, id, class, teacher, subject, room),
        p.requirements@[id.0 as int].double_period,
    ensures
        double_attempt(
            teacher_unavailability(p),
            p.requirements@,
            old(pl).lessons@,
            old(rng).0,
            id.0 as int,
        ) == (if placed {
            Some(final(pl).lessons@)
        } else {
            None
        }, final(rng).0),
        !placed ==> *final(pl) == *old(pl),
        placement_valid(*final(pl), p),
        placed ==> forall|i: int|
            0 <= i < p.requirements@.len() ==> #[trigger] count_lessons(
                final(pl).lessons@,
                of_requirement(p, i),
            ) == count_lessons(old(pl).lessons@, of_requirement(p, i)) + if i == id.0 {
                2nat
            } else {
                0nat
            },
{
    let ghost rid = id.0 as int;
    let ghost unav = teacher_unavailability(p);
    let ghost reqs = p.requirements@;
    proof {
        assert(requirement_shape(p.requirements@[rid], rid));
        assert(rid / 12 < 20) by (nonlinear_arith)
            requires
                0 <= rid < 240,
        ;
        assert(p.classes@[class as int].home_room.0 == class);
        assert(fixture_room(reqs[rid]) == room);
    }
    let ghost pl0 = *pl;
    let ghost ls0 = pl0.lessons@;
    let mut starts = double_starts();
    rng.shuffle(&mut starts);
    let ghost cands = starts@;
    proof {
        assert((cands, rng.0) == shuffled(double_start_seq(), old(rng).0));
    }
    let mut k: usize = 0;
    while k < starts.len()
        invariant
            *pl == pl0,
            pl0 == *old(pl),
            ls0 == pl0.lessons@,
            placement_valid(pl0, p),
            fixture_shape(p),
            *schedule == p.schedule,
            teachers@ == p.teachers@,
            step_args(p, id, class, teacher, subject, room),
            rid == id.0,
            unav == teacher_unavailability(p),
            reqs == p.requirements@,
            fixture_room(reqs[rid]) == room,
            p.requirements@[id.0 as int].double_period,
            class < N_CLASSES,
            subject < N_SUBJECTS,
            teacher < N_SUBJECTS * TEACHERS_PER_SUBJECT,
            room < N_ROOMS,
            starts@ == cands,
            (cands, rng.0) == shuffled(double_start_seq(), old(rng).0),
            k <= cands.len(),
            first_double(unav, reqs, ls0, rid, cands, 0) == first_double(
                unav,
                reqs,
                ls0,
                rid,
                cands,
                k as int,
            ),
            forall|j: int|
                0 <= j < starts@.len() ==> (#[trigger] starts@[j]).0 < N_DAYS && starts@[j].1
                    < PERIODS_PER_DAY - 1 && starts@[j].1 != LUNCH_AFTER - 1,
        decreases starts@.len() - k,
    {
        let (day, period) = starts[k];
        let s0 = schedule.slot_of(day, period).0 as usize;
        let s1 = s0 + 1;
        let di = daily_index(class, subject, day as usize);
        let fits = pl.daily[di] == 0 && !pl.class_busy[class].get(s0) && !pl.class_busy[class].get(
            s1,
        ) && !pl.teacher_busy[teacher].get(s0) && !pl.teacher_busy[teacher].get(s1)
            && !teachers[teacher].unavailable.get(s0) && !teachers[teacher].unavailable.get(s1)
            && !pl.room_busy[room].get(s0) && !pl.room_busy[room].get(s1);
        proof {
            lemma_placement_reads(pl0, p, class as int, subject as int, day as int);
            assert(unav[teacher as int] == p.teachers@[teacher as int].unavailable@);
            assert(fits == double_fits(unav, reqs, ls0, rid, day as int, period as int));
        }
        if fits {
            pl.class_busy[class].set(s0);
            pl.class_busy[class].set(s1);
            pl.teacher_busy[teacher].set(s0);
            pl.teacher_busy[teacher].set(s1);
            pl.room_busy[room].set(s0);
            pl.room_busy[room].set(s1);
            pl.daily[di] = pl.daily[di] + 2;
            pl.lessons.push(Lesson { requirement: id, slot: Slot(s0 as u32), room: RoomId(room as u32) });
            pl.lessons.push(Lesson { requirement: id, slot: Slot(s1 as u32), room: RoomId(room as u32) });
            proof {
                lemma_double_step(p, pl0, *pl, id.0 as int, day as int, period as int);
                assert forall|i: int| 0 <= i < p.requirements@.len() implies #[trigger] count_lessons(
                    pl.lessons@,
                    of_requirement(p, i),
                ) == count_lessons(pl0.lessons@, of_requirement(p, i)) + if i == id.0 {
                    2nat
                } else {
                    0nat
                } by {}
                assert(pl.lessons@ == ls0.push(planned_lesson(reqs, rid, s0 as int)).push(
                    planned_lesson(reqs, rid, s1 as int),
                ));
                assert(pl0 == *old(pl));
            }
            return true;
        }
        k = k + 1;
    }
    false
}

/// Tries to place one single lesson of a requirement, in random order over all
/// slots; returns whether it found room.
fn place_single(
    pl: &mut Placement,
    rng: &mut Rng,
    schedule: &WeekSchedule,
    teachers: &Vec<Teacher>,
    id: RequirementId,
    class: usize,
    teacher: usize,
    subject: usize,
    room: usize,
    Ghost(p): Ghost<Problem>,
) -> (placed: bool)
    requires
        placement_valid(*old(pl), p),
        fixture_shape(p),
        *schedule == p.schedule,
        teachers@ == p.teachers@,
        step_args(p, id, class, teacher, subject, room),
        !p.requirements@[id.0 as int].double_period,
    ensures
        single_attempt(
            teacher_unavailability(p),
            p.requirements@,
            old(pl).lessons@,
            old(rng).0,
            id.0 as int,
        ) == (if placed {
            Some(final(pl).lessons@)
        } else {
            None
        }, final(rng).0),
        !placed ==> *final(pl) == *old(pl),
        placement_valid(*final(pl), p),
        placed ==> forall|i: int|
            0 <= i < p.requirements@.len() ==> #[trigger] count_lessons(
                final(pl).lessons@,
                of_requirement(p, i),
            ) == count_lessons(old(pl).lessons@, of_requirement(p, i)) + if i == id.0 {
                1nat
            } else {
                0nat
            },
{
    let ghost rid = id.0 as int;
    let ghost unav = teacher_unavailability(p);
    let ghost reqs = p.requirements@;
    proof {
        assert(requirement_shape(p.requirements@[rid], rid));
        assert(rid / 12 < 20) by (nonlinear_arith)
            requires
                0 <= rid < 240,
        ;
        assert(p.classes@[class as int].home_room.0 == class);
        assert(fixture_room(reqs[rid]) == room);
    }
    let ghost pl0 = *pl;
    let ghost ls0 = pl0.lessons@;
    let nslots = schedule.slot_count();
    let mut order: Vec<usize> = Vec::new();
    let mut s: usize = 0;
    while s < nslots
        invariant
            nslots == fixture_slots(),
            s <= nslots,
            order@ == Seq::new(s as nat, |k: int| k as usize),
        decreases nslots - s,
    {
        order.push(s);
        s = s + 1;
        proof {
            assert(order@ =~= Seq::new(s as nat, |k: int| k as usize));
        }
    }
    proof {
        assert(order@ == all_slots());
    }
    rng.shuffle(&mut order);
    let ghost cands = order@;
    proof {
        assert((cands, rng.0) == shuffled(all_slots(), old(rng).0));
        assert forall|j: int| 0 <= j < order@.len() implies #[trigger] order@[j] < nslots by {
            assert(all_slots().contains(order@[j]));
        }
    }
    let mut k: usize = 0;
    while k < order.len()
        invariant
            *pl == pl0,
            pl0 == *old(pl),
            ls0 == pl0.lessons@,
            placement_valid(pl0, p),
            fixture_shape(p),
            *schedule == p.schedule,
            teachers@ == p.teachers@,
            step_args(p, id, class, teacher, subject, room),
            rid == id.0,
            unav == teacher_unavailability(p),
            reqs == p.requirements@,
            fixture_room(reqs[rid]) == room,
            !p.requirements@[id.0 as int].double_period,
            nslots == fixture_slots(),
            class < N_CLASSES,
            subject < N_SUBJECTS,
            teacher < N_SUBJECTS * TEACHERS_PER_SUBJECT,
            room < N_ROOMS,
            order@ == cands,
            (cands, rng.0) == shuffled(all_slots(), old(rng).0),
            k <= cands.len(),
            first_single(unav, reqs, ls0, rid, cands, 0) == first_single(
                unav,
                reqs,
                ls0,
                rid,
                cands,
                k as int,
            ),
            forall|j: int| 0 <= j < order@.len() ==> #[trigger] order@[j] < nslots,
        decreases order@.len() - k,
    {
        let s = order[k];
        let day = schedule.day(Slot(s as u32)) as usize;
        proof {
            assert(s / 8 < 5) by (nonlinear_arith)
                requires
                    s < 40,
            ;
        }
        let di = daily_index(class, subject, day);
        let fits = pl.daily[di] < 2 && !pl.class_busy[class].get(s) && !pl.teacher_busy[teacher].get(
            s,
        ) && !teachers[teacher].unavailable.get(s) && !pl.room_busy[room].get(s);
        proof {
            lemma_placement_reads(pl0, p, class as int, subject as int, day as int);
            assert(unav[teacher as int] == p.teachers@[teacher as int].unavailable@);
            assert(day == s as int / 8);
            assert(fits == single_fits(unav, reqs, ls0, rid, s as int));
        }
        if fits {
            pl.class_busy[class].set(s);
            pl.teacher_busy[teacher].set(s);
            pl.room_busy[room].set(s);
            pl.daily[di] = pl.daily[di] + 1;
            pl.lessons.push(Lesson { requirement: id, slot: Slot(s as u32), room: RoomId(room as u32) });
            proof {
                lemma_single_step(p, pl0, *pl, id.0 as int, s as int);
                assert forall|i: int| 0 <= i < p.requirements@.len() implies #[trigger] count_lessons(
                    pl.lessons@,
                    of_requirement(p, i),
                ) == count_lessons(pl0.lessons@, of_requirement(p, i)) + if i == id.0 {
                    1nat
                } else {
                    0nat
                } by {}
                assert(pl.lessons@ == ls0.push(planned_lesson(reqs, rid, s as int)));
                assert(pl0 == *old(pl));
            }
            return true;
        }
        k = k + 1;
    }
    false
}

/// What every generated fixture satisfies: a well-formed problem of 20
/// classes, 60 teachers, 12 subjects, 26 rooms and one requirement per class
/// and subject.
pub open spec fn fixture_shape(p: Problem) -> bool {
    &&& p.is_well_formed()
    &&& p.schedule.days == N_DAYS
    &&& p.schedule.periods_per_day == PERIODS_PER_DAY
    &&& p.schedule.lunch_after_period == LUNCH_AFTER
    &&& p.classes@.len() == N_CLASSES
    &&& p.teachers@.len() == N_SUBJECTS * TEACHERS_PER_SUBJECT
    &&& p.subjects@.len() == N_SUBJECTS
    &&& p.rooms@.len() == N_ROOMS
    &&& p.requirements@.len() == N_CLASSES * N_SUBJECTS
    &&& forall|i: int|
        0 <= i < p.requirements@.len() ==> requirement_shape(#[trigger] p.requirements@[i], i)
    &&& forall|c: int|
        0 <= c < N_CLASSES ==> (#[trigger] p.classes@[c]).home_room.0 == c && p.classes@[c].id.0
            == c
}

/// A day holding no lesson or one legal double is already ascending, and
/// pairs up.
proof fn lemma_day_pairing_pairs_up(sch: WeekSchedule, s: Seq<u32>)
    requires
        day_pairing_ok(sch, s),
    ensures
        pairs_up(sch, ascending(s)),
{
    lemma_slot_leq_total();
    s.lemma_sort_by_ensures(slot_leq());
    lemma_sorted_unique(s, ascending(s), slot_leq());
    if s.len() == 2 {
        assert(pair_at(sch, s, 0));
    }
}

/// Lessons per week of the requirement at position `r`.
spec fn weekly(p: Problem, r: int) -> nat {
    p.requirements@[r].lessons_per_week as nat
}

/// One attempt with one seed: builds the problem, then places each class's
/// lessons greedily, doubles first; `None` when some lesson finds no room.
fn try_generate(seed: u64) -> (out: Option<(Problem, Timetable)>)
    ensures
        out is Some <==> fixture_lessons(seed) is Some,
        out matches Some((p, tt)) ==> {
            &&& fixture_shape(p)
            &&& fixture_labels(p)
            &&& timetable_is_valid(p, tt)
            &&& teacher_unavailability(p) == fixture_unavailability(seed)
            &&& p.requirements@ == fixture_requirements(seed)
            &&& fixture_lessons(seed) == Some(tt.lessons@)
        },
{
    let mut rng = Rng::new(seed);
    let ghost st0 = rng.0;
    let schedule = WeekSchedule::new(N_DAYS, PERIODS_PER_DAY, LUNCH_AFTER);
    let nslots = schedule.slot_count();

    // Subjects.
    let mut subjects: Vec<Subject> = Vec::new();
    let mut i: usize = 0;
    while i < N_SUBJECTS
        invariant
            i <= N_SUBJECTS,
            subjects@.len() == i,
            forall|k: int|
                0 <= k < i ==> (#[trigger] subjects@[k]).id.0 == k && subjects@[k].name@
                    == subject_name_text(k),
        decreases N_SUBJECTS - i,
    {
        subjects.push(Subject { id: SubjectId(i as u32), name: String::from_str(subject_name(i)) });
        i = i + 1;
    }

    // Teachers, rooms, classes, requirements.
    let teachers = make_teachers(&mut rng, nslots);
    let ghost st1 = rng.0;
    let rooms = make_rooms();
    let classes = make_classes();
    let requirements = make_requirements(&mut rng, &classes);
    let ghost gp = Problem {
        schedule: schedule,
        subjects: subjects,
        teachers: teachers,
        classes: classes,
        rooms: rooms,
        requirements: requirements,
    };
    proof {
        assert forall|i: int| 0 <= i < gp.requirements@.len() implies {
            let r = #[trigger] gp.requirements@[i];
            &&& r.id.0 == i
            &&& r.class.0 < gp.classes@.len()
            &&& r.subject.0 < gp.subjects@.len()
            &&& r.teacher.0 < gp.teachers@.len()
            &&& !pinned_room_missing(gp, r)
        } by {
            assert(requirement_shape(gp.requirements@[i], i));
            assert(i / 12 < 20) by (nonlinear_arith)
                requires
                    0 <= i < 240,
            ;
        }
        assert(fixture_shape(gp));
        assert(fixture_labels(gp));
    }

    let ghost unav = teacher_unavailability(gp);
    let ghost goal = fixture_lessons(seed);
    proof {
        assert(st0 == fixture_start(seed));
        assert(unav =~= Seq::new(teachers@.len(), |t: int| teachers@[t].unavailable@));
        assert(unav == fixture_unavailability(seed));
        assert(requirements@ == fixture_requirements(seed));
    }

    // Placement: class by class, doubles first, then singles.
    let mut pl = new_placement(nslots, Ghost(gp));
    proof {
        assert(pl.lessons@ =~= Seq::<Lesson>::empty());
    }
    let mut c: usize = 0;
    while c < N_CLASSES
        invariant
            fixture_shape(gp),
            gp.schedule == schedule,
            gp.teachers@ == teachers@,
            gp.classes@ == classes@,
            gp.requirements@ == requirements@,
            nslots == fixture_slots(),
            placement_valid(pl, gp),
            c <= N_CLASSES,
            forall|r: int|
                0 <= r < N_CLASSES * N_SUBJECTS ==> #[trigger] count_lessons(
                    pl.lessons@,
                    of_requirement(gp, r),
                ) == if r / 12 < c {
                    weekly(gp, r)
                } else {
                    0
                },
            unav == teacher_unavailability(gp),
            goal == fixture_lessons(seed),
            goal == classes_from(unav, requirements@, pl.lessons@, rng.0, c as int),
        decreases N_CLASSES - c,
    {
        let class = &classes[c];
        let ghost ls_c = pl.lessons@;
        let ghost st_c = rng.0;
        proof {
            assert(class.id.0 == c);
        }

        // The class's requirements, in order.
        let mut class_reqs: Vec<usize> = Vec::new();
        let mut i: usize = 0;
        while i < requirements.len()
            invariant
                fixture_shape(gp),
                gp.requirements@ == requirements@,
                class.id.0 == c,
                c < N_CLASSES,
                i <= requirements@.len(),
                forall|k: int|
                    0 <= k < class_reqs@.len() ==> #[trigger] class_reqs@[k] < i
                        && requirements@[class_reqs@[k] as int].class.0 == c,
                forall|a: int, b: int|
                    0 <= a < b < class_reqs@.len() ==> class_reqs@[a] < class_reqs@[b],
                forall|r: int|
                    0 <= r < i && (#[trigger] requirements@[r]).class.0 == c
                        ==> class_reqs@.contains(r as usize),
                class_reqs@ == class_prefix(c as int, i as int),
            decreases requirements@.len() - i,
        {
            let ghost before = class_reqs@;
            if requirements[i].class == class.id {
                class_reqs.push(i);
                proof {
                    assert(class_reqs@[class_reqs@.len() - 1] == i);
                }
            }
            proof {
                assert forall|r: int|
                    0 <= r < i + 1 && (#[trigger] requirements@[r]).class.0 == c
                        implies class_reqs@.contains(r as usize) by {
                    if r == i {
                        assert(class_reqs@[class_reqs@.len() - 1] == i);
                    } else {
                        assert(before.contains(r as usize));
                        let k = choose|k: int| 0 <= k < before.len() && before[k] == r as usize;
                        assert(class_reqs@[k] == before[k]);
                    }
                }
            }
            proof {
                assert(requirement_shape(requirements@[i as int], i as int));
                assert((i as int / 12 == c as int) <==> (c * 12 <= i < c * 12 + 12)) by (nonlinear_arith)
                    requires
                        0 <= i,
                        0 <= c,
                ;
                assert(class_reqs@ =~= class_prefix(c as int, i + 1));
            }
            i = i + 1;
        }

        // Doubles and singles.
        let mut doubles: Vec<usize> = Vec::new();
        let mut singles: Vec<usize> = Vec::new();
        let mut i: usize = 0;
        while i < class_reqs.len()
            invariant
                fixture_shape(gp),
                gp.requirements@ == requirements@,
                c < N_CLASSES,
                i <= class_reqs@.len(),
                forall|k: int|
                    0 <= k < class_reqs@.len() ==> #[trigger] class_reqs@[k] < requirements@.len()
                        && requirements@[class_reqs@[k] as int].class.0 == c,
                forall|a: int, b: int|
                    0 <= a < b < class_reqs@.len() ==> class_reqs@[a] < class_reqs@[b],
                forall|k: int|
                    0 <= k < doubles@.len() ==> #[trigger] doubles@[k] < requirements@.len()
                        && requirements@[doubles@[k] as int].class.0 == c
                        && requirements@[doubles@[k] as int].double_period,
                forall|k: int|
                    0 <= k < singles@.len() ==> #[trigger] singles@[k] < requirements@.len()
                        && requirements@[singles@[k] as int].class.0 == c
                        && !requirements@[singles@[k] as int].double_period,
                forall|a: int, b: int| 0 <= a < b < doubles@.len() ==> doubles@[a] < doubles@[b],
                forall|a: int, b: int| 0 <= a < b < singles@.len() ==> singles@[a] < singles@[b],
                forall|k: int| 0 <= k < doubles@.len() ==> exists|j: int| 0 <= j < i && #[trigger] class_reqs@[j] == #[trigger] doubles@[k],
                forall|k: int| 0 <= k < singles@.len() ==> exists|j: int| 0 <= j < i && #[trigger] class_reqs@[j] == #[trigger] singles@[k],
                forall|k: int|
                    0 <= k < i ==> (doubles@.contains(#[trigger] class_reqs@[k])
                        || singles@.contains(class_reqs@[k])),
                forall|r: int|
                    0 <= r < requirements@.len() && (#[trigger] requirements@[r]).class.0 == c
                        ==> class_reqs@.contains(r as usize),
                class_reqs@ == class_prefix(c as int, (N_CLASSES * N_SUBJECTS) as int),
                doubles@ == Seq::new(
                    if i <= 10 {
                        0nat
                    } else {
                        (i - 10) as nat
                    },
                    |k: int| (c * N_SUBJECTS + SUBJ_PHYS_LAB + k) as usize,
                ),
                singles@ == Seq::new(
                    if i <= 10 {
                        i as nat
                    } else {
                        10nat
                    },
                    |k: int| (c * N_SUBJECTS + k) as usize,
                ),
            decreases class_reqs@.len() - i,
        {
            let ri = class_reqs[i];
            let ghost d_before = doubles@;
            let ghost s_before = singles@;
            if requirements[ri].double_period {
                doubles.push(ri);
                proof {
                    assert(doubles@[doubles@.len() - 1] == ri);
                    assert forall|a: int, b: int|
                        0 <= a < b < doubles@.len() implies doubles@[a] < doubles@[b] by {
                        if b == doubles@.len() - 1 {
                            let j = choose|j: int| 0 <= j < i && #[trigger] class_reqs@[j] == doubles@[a];
                        }
                    }
                }
            } else {
                singles.push(ri);
                proof {
                    assert(singles@[singles@.len() - 1] == ri);
                    assert forall|a: int, b: int|
                        0 <= a < b < singles@.len() implies singles@[a] < singles@[b] by {
                        if b == singles@.len() - 1 {
                            let j = choose|j: int| 0 <= j < i && #[trigger] class_reqs@[j] == singles@[a];
                        }
                    }
                }
            }
            proof {
                assert forall|k: int|
                    0 <= k < i + 1 implies (doubles@.contains(#[trigger] class_reqs@[k])
                        || singles@.contains(class_reqs@[k])) by {
                    if k < i {
                        if d_before.contains(class_reqs@[k]) {
                            let j = choose|j: int| 0 <= j < d_before.len() && d_before[j] == class_reqs@[k];
                            assert(doubles@[j] == d_before[j]);
                        } else {
                            assert(s_before.contains(class_reqs@[k]));
                            let j = choose|j: int| 0 <= j < s_before.len() && s_before[j] == class_reqs@[k];
                            assert(singles@[j] == s_before[j]);
                        }
                    } else {
                        if requirements@[ri as int].double_period {
                            assert(doubles@[doubles@.len() - 1] == ri);
                        } else {
                            assert(singles@[singles@.len() - 1] == ri);
                        }
                    }
                }
            }
            proof {
                assert(ri == c * 12 + i);
                assert(requirement_shape(requirements@[ri as int], ri as int));
                assert((c * 12 + i) % 12 == i) by (nonlinear_arith)
                    requires
                        0 <= i < 12,
                        0 <= c,
                ;
                assert(doubles@ =~= Seq::new(
                    if i + 1 <= 10 {
                        0nat
                    } else {
                        (i + 1 - 10) as nat
                    },
                    |k: int| (c * N_SUBJECTS + SUBJ_PHYS_LAB + k) as usize,
                ));
                assert(singles@ =~= Seq::new(
                    if i + 1 <= 10 {
                        (i + 1) as nat
                    } else {
                        10nat
                    },
                    |k: int| (c * N_SUBJECTS + k) as usize,
                ));
            }
            i = i + 1;
        }
        proof {
            assert(doubles@ =~= class_doubles(c as int));
            assert(singles@ =~= class_singles(c as int));
        }
        let ghost doubles0 = doubles@;
        let ghost singles0 = singles@;
        rng.shuffle(&mut doubles);
        let ghost st_mid = rng.0;
        rng.shuffle(&mut singles);
        proof {
            assert(pl.lessons@ == ls_c);
            assert(class_run(unav, requirements@, ls_c, st_c, c as int) == singles_then(
                unav,
                requirements@,
                doubles_from(unav, requirements@, pl.lessons@, rng.0, doubles@, 0),
                singles@,
                0,
            ));
        }
        proof {
            assert(doubles0.no_duplicates());
            assert(singles0.no_duplicates());
            // Every requirement of the class is among the doubles or the singles.
            assert forall|r: int|
                0 <= r < N_CLASSES * N_SUBJECTS && (#[trigger] requirements@[r]).class.0 == c
                    implies (doubles@.contains(r as usize) || singles@.contains(r as usize)) by {
                assert(requirement_shape(requirements@[r], r));
                assert(class_reqs@.contains(r as usize));
                let k = choose|k: int| 0 <= k < class_reqs@.len() && class_reqs@[k] == r as usize;
                if doubles0.contains(class_reqs@[k]) {
                    let j = choose|j: int| 0 <= j < doubles0.len() && doubles0[j] == r as usize;
                    assert(doubles@.contains(doubles0[j]));
                } else {
                    assert(singles0.contains(class_reqs@[k]));
                    let j = choose|j: int| 0 <= j < singles0.len() && singles0[j] == r as usize;
                    assert(singles@.contains(singles0[j]));
                }
            }
            assert forall|k: int| 0 <= k < doubles@.len() implies #[trigger] doubles@[k]
                < requirements@.len() && requirements@[doubles@[k] as int].class.0 == c
                && requirements@[doubles@[k] as int].double_period by {
                assert(doubles0.contains(doubles@[k]));
            }
            assert forall|k: int| 0 <= k < singles@.len() implies #[trigger] singles@[k]
                < requirements@.len() && requirements@[singles@[k] as int].class.0 == c
                && !requirements@[singles@[k] as int].double_period by {
                assert(singles0.contains(singles@[k]));
            }
            assert(doubles@.take(0) =~= Seq::<usize>::empty());
        }

        // Doubles: a random start among those whose successor is on the same
        // side of lunch.
        let mut i: usize = 0;
        while i < doubles.len()
            invariant
                fixture_shape(gp),
                gp.schedule == schedule,
                gp.teachers@ == teachers@,
                gp.classes@ == classes@,
                gp.requirements@ == requirements@,
                c < N_CLASSES,
                *class == classes@[c as int],
                placement_valid(pl, gp),
                forall|r: int|
                    0 <= r < N_CLASSES * N_SUBJECTS && (#[trigger] requirements@[r]).class.0 == c
                        ==> doubles@.contains(r as usize) || singles@.contains(r as usize),
                i <= doubles@.len(),
                doubles@.no_duplicates(),
                forall|k: int|
                    0 <= k < doubles@.len() ==> #[trigger] doubles@[k] < requirements@.len()
                        && requirements@[doubles@[k] as int].class.0 == c
                        && requirements@[doubles@[k] as int].double_period,
                forall|r: int|
                    0 <= r < N_CLASSES * N_SUBJECTS ==> #[trigger] count_lessons(
                        pl.lessons@,
                        of_requirement(gp, r),
                    ) == if r / 12 < c || doubles@.take(i as int).contains(r as usize) {
                        weekly(gp, r)
                    } else {
                        0
                    },
                unav == teacher_unavailability(gp),
                goal == fixture_lessons(seed),
                goal == classes_from(unav, requirements@, ls_c, st_c, c as int),
                class_run(unav, requirements@, ls_c, st_c, c as int) == singles_then(
                    unav,
                    requirements@,
                    doubles_from(unav, requirements@, pl.lessons@, rng.0, doubles@, i as int),
                    singles@,
                    0,
                ),
            decreases doubles@.len() - i,
        {
            let ri = doubles[i];
            let req = &requirements[ri];
            proof {
                assert(requirement_shape(requirements@[ri as int], ri as int));
                assert(ri / 12 < 20) by (nonlinear_arith)
                    requires
                        0 <= ri < 240,
                ;
                assert(!doubles@.take(i as int).contains(ri)) by {
                    if doubles@.take(i as int).contains(ri) {
                        let j = choose|j: int| 0 <= j < i && doubles@.take(i as int)[j] == ri;
                        assert(doubles@[j] == doubles@[i as int]);
                    }
                }
            }
            let room = req.room_or_home(class).idx();
            let teacher = req.teacher.idx();
            let subject = req.subject.idx();
            let mut n: u8 = 0;
            proof {
                assert(doubles_from(unav, requirements@, pl.lessons@, rng.0, doubles@, i as int)
                    == doubles_then(
                    unav,
                    requirements@,
                    doubles_rep(
                        unav,
                        requirements@,
                        pl.lessons@,
                        rng.0,
                        ri as int,
                        (req.lessons_per_week / 2) as nat,
                    ),
                    doubles@,
                    i + 1,
                ));
            }
            while n < req.lessons_per_week / 2
                invariant
                    fixture_shape(gp),
                    gp.schedule == schedule,
                    gp.teachers@ == teachers@,
                    gp.classes@ == classes@,
                    gp.requirements@ == requirements@,
                    c < N_CLASSES,
                    ri < requirements@.len(),
                    *req == requirements@[ri as int],
                    req.double_period,
                    req.class.0 == c,
                    step_args(gp, req.id, c, teacher, subject, room),
                    placement_valid(pl, gp),
                    n <= req.lessons_per_week / 2,
                    forall|r: int|
                        0 <= r < N_CLASSES * N_SUBJECTS ==> #[trigger] count_lessons(
                            pl.lessons@,
                            of_requirement(gp, r),
                        ) == if r == ri {
                            2 * n as nat
                        } else if r / 12 < c || doubles@.take(i as int).contains(r as usize) {
                            weekly(gp, r)
                        } else {
                            0
                        },
                    unav == teacher_unavailability(gp),
                    goal == fixture_lessons(seed),
                    goal == classes_from(unav, requirements@, ls_c, st_c, c as int),
                    i < doubles@.len(),
                    doubles@[i as int] == ri,
                    class_run(unav, requirements@, ls_c, st_c, c as int) == singles_then(
                        unav,
                        requirements@,
                        doubles_then(
                            unav,
                            requirements@,
                            doubles_rep(
                                unav,
                                requirements@,
                                pl.lessons@,
                                rng.0,
                                ri as int,
                                (req.lessons_per_week / 2 - n) as nat,
                            ),
                            doubles@,
                            i + 1,
                        ),
                        singles@,
                        0,
                    ),
                decreases req.lessons_per_week / 2 - n,
            {
                let ghost ls_n = pl.lessons@;
                let ghost st_n = rng.0;
                let placed = place_double(
                    &mut pl,
                    &mut rng,
                    &schedule,
                    &teachers,
                    req.id,
                    c,
                    teacher,
                    subject,
                    room,
                    Ghost(gp),
                );
                proof {
                    assert(requirements@[ri as int].id.0 == ri);
                    assert(doubles_rep(
                        unav,
                        requirements@,
                        ls_n,
                        st_n,
                        ri as int,
                        (req.lessons_per_week / 2 - n) as nat,
                    ) == if placed {
                        doubles_rep(
                            unav,
                            requirements@,
                            pl.lessons@,
                            rng.0,
                            ri as int,
                            (req.lessons_per_week / 2 - n - 1) as nat,
                        )
                    } else {
                        None
                    });
                }
                if !placed {
                    return None;
                }
                n = n + 1;
            }
            proof {
                assert(req.lessons_per_week == 2);
                let t0 = doubles@.take(i as int);
                let t1 = doubles@.take(i + 1);
                assert(t1 =~= t0.push(ri));
                assert forall|r: int| 0 <= r < N_CLASSES * N_SUBJECTS implies #[trigger] count_lessons(
                    pl.lessons@,
                    of_requirement(gp, r),
                ) == if r / 12 < c || t1.contains(r as usize) {
                    weekly(gp, r)
                } else {
                    0
                } by {
                    if r == ri {
                        assert(t1[i as int] == ri);
                    } else {
                        if t1.contains(r as usize) {
                            let j = choose|j: int| 0 <= j < t1.len() && t1[j] == r as usize;
                            assert(t0[j] == t1[j]);
                        }
                        if t0.contains(r as usize) {
                            let j = choose|j: int| 0 <= j < t0.len() && t0[j] == r as usize;
                            assert(t1[j] == t0[j]);
                        }
                    }
                }
            }
            i = i + 1;
        }
        proof {
            assert(doubles@.take(i as int) =~= doubles@);
            assert(singles@.take(0) =~= Seq::<usize>::empty());
        }

        // Singles: a random slot among all.
        let mut i: usize = 0;
        while i < singles.len()
            invariant
                fixture_shape(gp),
                gp.schedule == schedule,
                gp.teachers@ == teachers@,
                gp.classes@ == classes@,
                gp.requirements@ == requirements@,
                c < N_CLASSES,
                *class == classes@[c as int],
                placement_valid(pl, gp),
                forall|r: int|
                    0 <= r < N_CLASSES * N_SUBJECTS && (#[trigger] requirements@[r]).class.0 == c
                        ==> doubles@.contains(r as usize) || singles@.contains(r as usize),
                i <= singles@.len(),
                singles@.no_duplicates(),
                forall|k: int|
                    0 <= k < singles@.len() ==> #[trigger] singles@[k] < requirements@.len()
                        && requirements@[singles@[k] as int].class.0 == c
                        && !requirements@[singles@[k] as int].double_period,
                forall|k: int|
                    0 <= k < doubles@.len() ==> #[trigger] doubles@[k] < requirements@.len()
                        && requirements@[doubles@[k] as int].double_period,
                forall|r: int|
                    0 <= r < N_CLASSES * N_SUBJECTS ==> #[trigger] count_lessons(
                        pl.lessons@,
                        of_requirement(gp, r),
                    ) == if r / 12 < c || doubles@.contains(r as usize) || singles@.take(
                        i as int,
                    ).contains(r as usize) {
                        weekly(gp, r)
                    } else {
                        0
                    },
                unav == teacher_unavailability(gp),
                goal == fixture_lessons(seed),
                goal == classes_from(unav, requirements@, ls_c, st_c, c as int),
                class_run(unav, requirements@, ls_c, st_c, c as int) == singles_from(
                    unav,
                    requirements@,
                    pl.lessons@,
                    rng.0,
                    singles@,
                    i as int,
                ),
            decreases singles@.len() - i,
        {
            let ri = singles[i];
            let req = &requirements[ri];
            proof {
                assert(requirement_shape(requirements@[ri as int], ri as int));
                assert(ri / 12 < 20) by (nonlinear_arith)
                    requires
                        0 <= ri < 240,
                ;
                assert(!singles@.take(i as int).contains(ri)) by {
                    if singles@.take(i as int).contains(ri) {
                        let j = choose|j: int| 0 <= j < i && singles@.take(i as int)[j] == ri;
                        assert(singles@[j] == singles@[i as int]);
                    }
                }
                assert(!doubles@.contains(ri)) by {
                    if doubles@.contains(ri) {
                        let j = choose|j: int| 0 <= j < doubles@.len() && doubles@[j] == ri;
                        assert(requirements@[doubles@[j] as int].double_period);
                    }
                }
            }
            let room = req.room_or_home(class).idx();
            let teacher = req.teacher.idx();
            let subject = req.subject.idx();
            let mut n: u8 = 0;
            proof {
                assert(singles_from(unav, requirements@, pl.lessons@, rng.0, singles@, i as int)
                    == singles_then(
                    unav,
                    requirements@,
                    singles_rep(
                        unav,
                        requirements@,
                        pl.lessons@,
                        rng.0,
                        ri as int,
                        req.lessons_per_week as nat,
                    ),
                    singles@,
                    i + 1,
                ));
            }
            while n < req.lessons_per_week
                invariant
                    fixture_shape(gp),
                    gp.schedule == schedule,
                    gp.teachers@ == teachers@,
                    gp.classes@ == classes@,
                    gp.requirements@ == requirements@,
                    c < N_CLASSES,
                    ri < requirements@.len(),
                    *req == requirements@[ri as int],
                    !req.double_period,
                    req.class.0 == c,
                    step_args(gp, req.id, c, teacher, subject, room),
                    placement_valid(pl, gp),
                    n <= req.lessons_per_week,
                    forall|r: int|
                        0 <= r < N_CLASSES * N_SUBJECTS ==> #[trigger] count_lessons(
                            pl.lessons@,
                            of_requirement(gp, r),
                        ) == if r == ri {
                            n as nat
                        } else if r / 12 < c || doubles@.contains(r as usize) || singles@.take(
                            i as int,
                        ).contains(r as usize) {
                            weekly(gp, r)
                        } else {
                            0
                        },
                    unav == teacher_unavailability(gp),
                    goal == fixture_lessons(seed),
                    goal == classes_from(unav, requirements@, ls_c, st_c, c as int),
                    i < singles@.len(),
                    singles@[i as int] == ri,
                    class_run(unav, requirements@, ls_c, st_c, c as int) == singles_then(
                        unav,
                        requirements@,
                        singles_rep(
                            unav,
                            requirements@,
                            pl.lessons@,
                            rng.0,
                            ri as int,
                            (req.lessons_per_week - n) as nat,
                        ),
                        singles@,
                        i + 1,
                    ),
                decreases req.lessons_per_week - n,
            {
                let ghost ls_n = pl.lessons@;
                let ghost st_n = rng.0;
                let placed = place_single(
                    &mut pl,
                    &mut rng,
                    &schedule,
                    &teachers,
                    req.id,
                    c,
                    teacher,
                    subject,
                    room,
                    Ghost(gp),
                );
                proof {
                    assert(requirements@[ri as int].id.0 == ri);
                    assert(singles_rep(
                        unav,
                        requirements@,
                        ls_n,
                        st_n,
                        ri as int,
                        (req.lessons_per_week - n) as nat,
                    ) == if placed {
                        singles_rep(
                            unav,
                            requirements@,
                            pl.lessons@,
                            rng.0,
                            ri as int,
                            (req.lessons_per_week - n - 1) as nat,
                        )
                    } else {
                        None
                    });
                }
                if !placed {
                    return None;
                }
                n = n + 1;
            }
            proof {
                let t0 = singles@.take(i as int);
                let t1 = singles@.take(i + 1);
                assert(t1 =~= t0.push(ri));
                assert forall|r: int| 0 <= r < N_CLASSES * N_SUBJECTS implies #[trigger] count_lessons(
                    pl.lessons@,
                    of_requirement(gp, r),
                ) == if r / 12 < c || doubles@.contains(r as usize) || t1.contains(r as usize) {
                    weekly(gp, r)
                } else {
                    0
                } by {
                    if r == ri {
                        assert(t1[i as int] == ri);
                    } else {
                        if t1.contains(r as usize) {
                            let j = choose|j: int| 0 <= j < t1.len() && t1[j] == r as usize;
                            assert(t0[j] == t1[j]);
                        }
                        if t0.contains(r as usize) {
                            let j = choose|j: int| 0 <= j < t0.len() && t0[j] == r as usize;
                            assert(t1[j] == t0[j]);
                        }
                    }
                }
            }
            i = i + 1;
        }
        proof {
            assert(singles@.take(i as int) =~= singles@);
            assert forall|r: int| 0 <= r < N_CLASSES * N_SUBJECTS implies #[trigger] count_lessons(
                pl.lessons@,
                of_requirement(gp, r),
            ) == if r / 12 < c + 1 {
                weekly(gp, r)
            } else {
                0
            } by {
                assert(requirement_shape(requirements@[r], r));
                if r / 12 > c {
                    if doubles@.contains(r as usize) {
                        let j = choose|j: int| 0 <= j < doubles@.len() && doubles@[j] == r as usize;
                        assert(requirements@[doubles@[j] as int].class.0 == c);
                    }
                    if singles@.contains(r as usize) {
                        let j = choose|j: int| 0 <= j < singles@.len() && singles@[j] == r as usize;
                        assert(requirements@[singles@[j] as int].class.0 == c);
                    }
                }
            }
        }
        proof {
            assert(class_run(unav, requirements@, ls_c, st_c, c as int) == Some((pl.lessons@, rng.0)));
            assert(classes_from(unav, requirements@, ls_c, st_c, c as int) == classes_from(
                unav,
                requirements@,
                pl.lessons@,
                rng.0,
                c + 1,
            ));
        }
        c = c + 1;
    }

    proof {
        assert(goal == Some(pl.lessons@));
    }
    let problem = Problem { schedule, subjects, teachers, classes, rooms, requirements };
    let tt = Timetable { lessons: pl.lessons };
    proof {
        assert(problem == gp);
        let ls = tt.lessons@;
        assert forall|c: int, subj: int, d: int|
            0 <= c < problem.classes@.len() && 0 <= subj < problem.subjects@.len() && 0 <= d
                < problem.schedule.days implies #[trigger] count_lessons(
            ls,
            subject_on_day(problem, c, subj, d),
        ) <= DAILY_SUBJECT_LIMIT by {
            lemma_flat_index(c, subj, d, N_CLASSES as int, N_SUBJECTS as int, N_DAYS as int);
            assert(pl.daily@[flat_index(c, subj, d, N_SUBJECTS as int, N_DAYS as int)] <= 2);
        }
        assert forall|i: int, d: int|
            0 <= i < problem.requirements@.len() && problem.requirements@[i].double_period && 0
                <= d < problem.schedule.days implies pairs_up(
            problem.schedule,
            #[trigger] ascending(slots_on_day(problem.schedule, requirement_slots(problem, ls, i), d)),
        ) by {
            lemma_day_pairing_pairs_up(
                problem.schedule,
                slots_on_day(problem.schedule, requirement_slots(problem, ls, i), d),
            );
        }
        assert forall|i: int| 0 <= i < problem.requirements@.len() implies #[trigger] count_lessons(
            ls,
            of_requirement(problem, i),
        ) == problem.requirements@[i].lessons_per_week by {
            assert(i / 12 < 20) by (nonlinear_arith)
                requires
                    0 <= i < 240,
            ;
        }
    }
    Some((problem, tt))
}

/// Generates a fixture problem and a complete timetable for it that breaks no
/// hard constraint. The same seed gives the same result.
///
/// Attempts use the seeds `seed`, `seed + 1`, … (10 000 of them; a range that
/// would wrap past `u64::MAX` holds none); one of them must succeed.
pub fn generate(seed: u64) -> (out: (Problem, Timetable))
    requires
        exists|a: u64|
            seed <= a < seed.wrapping_add(10_000) && (#[trigger] fixture_lessons(a)) is Some,
    ensures
        fixture_shape(out.0),
        fixture_labels(out.0),
        timetable_is_valid(out.0, out.1),
        violations_of(out.0, out.1) == Seq::<Violation>::empty(),
        out.1.lessons@.len() == N_CLASSES * 35,
        exists|a: u64|
            {
                &&& seed <= a < seed.wrapping_add(10_000)
                &&& fixture_lessons(a) == Some(out.1.lessons@)
                &&& teacher_unavailability(out.0) == fixture_unavailability(a)
                &&& out.0.requirements@ == fixture_requirements(a)
                &&& forall|b: u64| seed <= b < a ==> (#[trigger] fixture_lessons(b)) is None
            },
{
    let end = seed.wrapping_add(10_000);
    let mut attempt = seed;
    loop
        invariant
            end == seed.wrapping_add(10_000),
            exists|a: u64| seed <= a < end && (#[trigger] fixture_lessons(a)) is Some,
            seed <= attempt < end,
            forall|b: u64| seed <= b < attempt ==> (#[trigger] fixture_lessons(b)) is None,
        decreases end - attempt,
    {
        match try_generate(attempt) {
            Some(out) => {
                proof {
                    lemma_no_violations_iff_valid(out.0, out.1);
                    lemma_fixture_lesson_count(out.0, out.1);
                    assert(fixture_lessons(attempt) is Some);
                }
                return out;
            },
            None => {},
        }
        proof {
            let a = choose|a: u64| seed <= a < end && (#[trigger] fixture_lessons(a)) is Some;
            assert(a != attempt);
            if a < attempt {
                assert(fixture_lessons(a) is None);
            }
            assert(attempt + 1 < end);
        }
        attempt = attempt + 1;
    }
}


/// Placed lessons of the requirements below `n`.
spec fn requirement_total(p: Problem, ls: Seq<Lesson>, n: nat) -> nat
    decreases n,
{
    if n == 0 {
        0
    } else {
        requirement_total(p, ls, (n - 1) as nat) + count_lessons(ls, of_requirement(p, n - 1))
    }
}

/// Weekly lessons of the requirements below `n`.
spec fn weekly_total(p: Problem, n: nat) -> nat
    decreases n,
{
    if n == 0 {
        0
    } else {
        weekly_total(p, (n - 1) as nat) + weekly(p, n - 1)
    }
}

proof fn lemma_total_push(p: Problem, ls: Seq<Lesson>, l: Lesson, n: nat)
    ensures
        requirement_total(p, ls.push(l), n) == requirement_total(p, ls, n) + if is_placed(p, l)
            && l.requirement.0 < n {
            1nat
        } else {
            0nat
        },
    decreases n,
{
    lemma_count_push(ls, l);
    if n > 0 {
        lemma_total_push(p, ls, l, (n - 1) as nat);
    }
}

proof fn lemma_total_is_len(p: Problem, ls: Seq<Lesson>)
    requires
        forall|k: int| 0 <= k < ls.len() ==> is_placed(p, #[trigger] ls[k]),
    ensures
        requirement_total(p, ls, p.requirements@.len()) == ls.len(),
    decreases ls.len(),
{
    if ls.len() > 0 {
        let pre = ls.drop_last();
        assert forall|k: int| 0 <= k < pre.len() implies is_placed(p, #[trigger] pre[k]) by {
            assert(pre[k] == ls[k]);
        }
        lemma_total_is_len(p, pre);
        assert(pre.push(ls.last()) =~= ls);
        assert(is_placed(p, ls[ls.len() - 1]));
        lemma_total_push(p, pre, ls.last(), p.requirements@.len());
    } else {
        lemma_total_empty(p, ls, p.requirements@.len());
    }
}

proof fn lemma_total_empty(p: Problem, ls: Seq<Lesson>, n: nat)
    requires
        ls.len() == 0,
    ensures
        requirement_total(p, ls, n) == 0,
    decreases n,
{
    if n > 0 {
        lemma_total_empty(p, ls, (n - 1) as nat);
    }
}

proof fn lemma_totals_agree(p: Problem, ls: Seq<Lesson>, n: nat)
    requires
        n <= p.requirements@.len(),
        forall|i: int| 0 <= i < n ==> #[trigger] count_lessons(ls, of_requirement(p, i)) == weekly(p, i),
    ensures
        requirement_total(p, ls, n) == weekly_total(p, n),
    decreases n,
{
    if n > 0 {
        lemma_totals_agree(p, ls, (n - 1) as nat);
    }
}

/// The twelve requirements of one class add up to 35 weekly lessons.
proof fn lemma_class_block(p: Problem, k: int)
    requires
        fixture_shape(p),
        0 <= k < N_CLASSES,
    ensures
        weekly_total(p, (12 * k + 12) as nat) == weekly_total(p, (12 * k) as nat) + 35,
{
    assert forall|j: int| 0 <= j < 12 implies #[trigger] weekly(p, 12 * k + j) == plan_lessons(j) by {
        assert(requirement_shape(p.requirements@[12 * k + j], 12 * k + j));
        assert((12 * k + j) % 12 == j) by (nonlinear_arith)
            requires
                0 <= j < 12,
                0 <= k,
        ;
        assert(12 * k + j < 240) by (nonlinear_arith)
            requires
                0 <= j < 12,
                0 <= k < 20,
        ;
    }
    let b = 12 * k;
    assert(weekly(p, b) == 5);
    assert(weekly(p, b + 1) == 5);
    assert(weekly(p, b + 2) == 5);
    assert(weekly(p, b + 3) == 3);
    assert(weekly(p, b + 4) == 3);
    assert(weekly(p, b + 5) == 2);
    assert(weekly(p, b + 6) == 2);
    assert(weekly(p, b + 7) == 2);
    assert(weekly(p, b + 8) == 2);
    assert(weekly(p, b + 9) == 2);
    assert(weekly(p, b + 10) == 2);
    assert(weekly(p, b + 11) == 2);
    assert(weekly_total(p, (b + 12) as nat) == weekly_total(p, (b + 11) as nat) + weekly(p, b + 11));
    assert(weekly_total(p, (b + 11) as nat) == weekly_total(p, (b + 10) as nat) + weekly(p, b + 10));
    assert(weekly_total(p, (b + 10) as nat) == weekly_total(p, (b + 9) as nat) + weekly(p, b + 9));
    assert(weekly_total(p, (b + 9) as nat) == weekly_total(p, (b + 8) as nat) + weekly(p, b + 8));
    assert(weekly_total(p, (b + 8) as nat) == weekly_total(p, (b + 7) as nat) + weekly(p, b + 7));
    assert(weekly_total(p, (b + 7) as nat) == weekly_total(p, (b + 6) as nat) + weekly(p, b + 6));
    assert(weekly_total(p, (b + 6) as nat) == weekly_total(p, (b + 5) as nat) + weekly(p, b + 5));
    assert(weekly_total(p, (b + 5) as nat) == weekly_total(p, (b + 4) as nat) + weekly(p, b + 4));
    assert(weekly_total(p, (b + 4) as nat) == weekly_total(p, (b + 3) as nat) + weekly(p, b + 3));
    assert(weekly_total(p, (b + 3) as nat) == weekly_total(p, (b + 2) as nat) + weekly(p, b + 2));
    assert(weekly_total(p, (b + 2) as nat) == weekly_total(p, (b + 1) as nat) + weekly(p, b + 1));
    assert(weekly_total(p, (b + 1) as nat) == weekly_total(p, b as nat) + weekly(p, b));
}

proof fn lemma_weekly_total(p: Problem, k: int)
    requires
        fixture_shape(p),
        0 <= k <= N_CLASSES,
    ensures
        weekly_total(p, (12 * k) as nat) == 35 * k,
    decreases k,
{
    if k > 0 {
        lemma_weekly_total(p, k - 1);
        lemma_class_block(p, k - 1);
    }
}

/// A fixture timetable that satisfies every hard constraint has 35 lessons
/// per class: 700 in all.
pub proof fn lemma_fixture_lesson_count(p: Problem, tt: Timetable)
    requires
        fixture_shape(p),
        timetable_is_valid(p, tt),
    ensures
        tt.lessons@.len() == N_CLASSES * 35,
{
    let ls = tt.lessons@;
    assert forall|k: int| 0 <= k < ls.len() implies is_placed(p, #[trigger] ls[k]) by {
        assert(lesson_ok(p, ls[k]));
    }
    lemma_total_is_len(p, ls);
    lemma_totals_agree(p, ls, p.requirements@.len());
    lemma_weekly_total(p, 20);
}

} // verus!
