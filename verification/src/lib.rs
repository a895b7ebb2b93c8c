//! Finds client-side prototype pollution gadgets from the trace that an
//! instrumented browser engine writes while it loads a page.
//!
//! - [`script`] generates the script that pollutes the object prototype.
//! - [`log_format`] says what a trace is, as a function from bytes to
//!   events; [`log_parser`] decodes a trace, and [`log_writer`] shows that
//!   what the engine writes reads back.
//! - [`analysis`] lists the undefined properties of a page and the writes
//!   and sinks that tainted values reach; [`location`] finds the place that
//!   a stack trace names.
//! - [`session`] decides the steps of a visit, for a caller that talks to
//!   the browser; [`cli`] reads what the command line asks for.
//! - [`text`] holds what the others share on bytes and text.

pub mod analysis;
pub mod cli;
pub mod location;
pub mod log_format;
pub mod log_parser;
pub mod log_writer;
pub mod script;
pub mod session;
pub mod text;

pub use analysis::{get_all_undefined_properties, retain_sink_related_log_entries, Finding};
pub use cli::Commands;
pub use location::{resolve_location, SourceLocation};
pub use log_parser::{parse_log, LogError, LogMessage, PropertySource, SiteLog};
pub use script::gen_polluting_script;
