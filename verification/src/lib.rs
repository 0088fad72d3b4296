//! Level plans: trees of plan elements that a tick driver activates, steps
//! and retires, one tick at a time, against a snapshot of the world.
//!
//! A plan element has three lifecycle operations: `activate`, `step` and
//! `deactivate`. Composite elements (`Sequence`, `Cycle`, `While`,
//! `Conditional`) are written in terms of those three operations alone, and
//! keep a journal of the calls they make on their children. A journal is
//! written by the call itself and by nothing else: each entry holds the call,
//! the child it was made on, and what it found and left in the buffer. The
//! contracts state what each operation adds to that journal, and the laws of
//! the `journal` module say what a journal that follows the lifecycle looks
//! like.
pub mod buffer;
pub mod conditional;
pub mod element;
pub mod guard;
pub mod journal;
pub mod plan;
pub mod sequence;

pub use conditional::Conditional;
pub use element::{LevelPlanElement, Nop, SetComponent};
pub use guard::While;
pub use plan::LevelPlan;
pub use sequence::{Cycle, Sequence};
