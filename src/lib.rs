//! A runtime core that drives a persistent tree-valued machine: a codec for
//! nouns, a checkpoint store, a kernel that applies inputs atomically, and an
//! event loop that orders inputs and routes effects to drivers.
pub mod codec;
pub mod event_loop;
pub mod kernel;
pub mod noun;
pub mod paths;
pub mod store;

pub use codec::{cue, cue_with_limit, jam, DecodeError, DEFAULT_MAX_DEPTH};
pub use event_loop::{recover_kernel, EventLoop, Input, OverflowPolicy, RegisterError, StepReport, SubmitError};
pub use kernel::{EvalError, Evaluator, Kernel, PokeError};
pub use noun::Noun;
pub use paths::{default_data_dir, join, resolve_data_dir};
pub use store::{Checkpoint, CheckpointStore, StoreError, DEFAULT_HISTORY, SCHEMA_VERSION};
