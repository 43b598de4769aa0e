//! Goldenscript testing framework. A goldenscript is a plain text file that
//! pairs arbitrary input commands with their expected text output, separated
//! by `---`:
//!
//! ```text
//! command argument key=value
//! ---
//! output
//! ```
//!
//! The script is parsed into [`Block`]s of [`Command`]s, each command is
//! executed by a user-supplied [`Runner`], and [`generate`] renders the
//! blocks' output text from the runner's results, applying the format's
//! rules: silenced commands are dropped, prefixed commands have every output
//! line labelled, empty blocks default to `ok`, output holding blank lines is
//! escaped with `> `, and line terminators follow the input (`\r\n` or
//! `\n`). The caller then compares the regenerated script against the
//! original file.
//!
//! The grammar and the rendering rules are stated as spec functions
//! ([`parser::spec_parse`], [`runner::render_script`]); the parser and the
//! generator are verified against them.

use vstd::prelude::*;

pub mod command;
pub mod parser;
pub mod runner;
mod text;

pub use command::{Argument, ArgumentConsumer, Block, Command};
pub use parser::{parse, parse_command, ParseError};
pub use runner::{ensure_eol, generate, render_command, GenerateError, HookKind, Outcome, Runner};

verus! {

} // verus!
