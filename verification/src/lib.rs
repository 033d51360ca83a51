//! A numeric stat whose effective value is a base value run through a bounded
//! set of modifiers. Each modifier stays in force for as long as somebody
//! keeps the handle that was handed out when it was added.

pub mod handle;
pub mod laws;
pub mod lemmas;
pub mod model;
pub mod modifier;
pub mod stat;

pub use handle::{StatModifierHandle, StatModifierHandleTag};
pub use model::Ranked;
pub use modifier::{IntModifier, Modifier};
pub use stat::{ModifiersFullError, Stat};
