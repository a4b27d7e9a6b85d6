//! Building blocks of a modular, ability-based toolkit: modules and their
//! abilities with the registry's decisions about what runs and how, the
//! protocol of one ability execution, the errors and their messages, and
//! closable, rate-limited task queues kept one per task type.

pub mod ability;
pub mod error;
pub mod manager;
pub mod module;
pub mod queue;
pub mod runner;
pub mod text;

pub use ability::{AbilityDescriptor, AbilityExecutionMode, AbilityIdentity, AbilityRun, AbilityStep};
pub use error::{AbilityError, ArcError, ModuleError, SkipReason};
pub use manager::TaskQueueManager;
pub use module::{ModuleDescriptor, ModuleIdentity};
pub use queue::{DequeueOutcome, TaskQueue, TaskQueueConfig};
pub use runner::{AbilityEntry, AbilityResult, ExecutionOutcome, ExecutionStrategy, ModuleRegistry};
