//! Timetabling core: data model, slot-occupancy bitmaps, input integrity
//! checks and the hard-constraint validator, all verified.
//!
//! - [`bitmap`]: slot-occupancy bitmaps over `Vec<u64>`.
//! - [`model`]: teachers, classes, subjects, rooms, weekly requirements, the
//!   week's shape, timetables.
//! - [`integrity`]: referential integrity of a problem.
//! - [`validate`]: the hard-constraint validator.
//! - [`hard_constraints`]: the hard constraints stated directly; the validator
//!   reports nothing exactly when they hold.
//! - [`testgen`]: a deterministic fixture generator (20 classes, 60 teachers).

pub mod bitmap;
pub mod hard_constraints;
pub mod integrity;
pub mod model;
pub mod slot_sort;
pub mod testgen;
pub mod text;
pub mod validate;

pub use integrity::IntegrityError;
pub use model::{
    Class, ClassId, Lesson, Problem, Requirement, RequirementId, Room, RoomId, Slot, Subject,
    SubjectId, Teacher, TeacherId, Timetable, WeekSchedule,
};
pub use validate::{validate, Violation, ViolationKind};
