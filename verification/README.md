# timetabler_core

The verified core of a school timetabler: the data model, slot-occupancy
bitmaps, the problem's integrity check and the hard-constraint validator. Every
function is checked by Verus against its contract.

## Layout

- `src/bitmap.rs`: a fixed-length bitmap (`Vec<u64>`) with a view as a
  sequence of booleans.
- `src/model.rs`: teachers, classes, subjects, rooms, weekly requirements, the
  week's shape (`WeekSchedule`), lessons and timetables.
- `src/integrity.rs`: the problem's referential integrity
  (`Problem::check_integrity`); it is clean exactly when the problem is well
  formed.
- `src/validate.rs`: `validate`, whose result is stated exactly by
  `violations_of`, and the readable descriptions of violations.
- `src/hard_constraints.rs`: the hard constraints stated directly, and the law
  that `validate` reports nothing exactly when they all hold.
- `src/testgen.rs`: the deterministic fixture generator (20 classes, 60
  teachers, 700 lessons); what it returns is proved to satisfy every hard
  constraint.
- `src/slot_sort.rs`, `src/text.rs`: sorting of slot numbers and decimal text.

## Hard constraints

1. A teacher, a class or a room has at most one lesson per slot.
2. A teacher's unavailable slots are avoided.
3. The lessons of a double-period requirement come in adjacent pairs that do
   not straddle lunch.
4. A class has at most two lessons of one subject per day.
5. Each requirement gets exactly its weekly number of lessons.
6. Each lesson takes place in the room its requirement prescribes.
