//! What the tool shows and reports while it works: progress handles, the
//! step runner, commands and errors.

pub mod command;
pub mod error;
pub mod progress;
pub mod step;

pub use command::{CommandDescriptor, ProcessOutput};
pub use error::{Cause, Context, Error, ErrorKind};
pub use progress::{Config, ProgressGroup, ProgressHandle, Status};
pub use step::{run_step, run_step_with_commands, run_tracked, CommandStep};
