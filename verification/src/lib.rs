//! A builder for commands that run on a remote host through an `ssh`-style
//! transport. The builder accumulates a program name, positional arguments,
//! environment-variable dispositions and an optional working directory; a
//! serializer then flattens that state, deterministically and injection-safely,
//! into the argument vector handed to the transport process.

pub mod command;
pub mod digits;
pub mod env;
pub mod escape;
pub mod lex;
pub mod serialize;
pub mod shell;

pub use command::Command;
pub use command::PreCommand;
pub use escape::escaped;
