//! A declarative parser for command-line and environment arguments.
//!
//! A caller describes named flags ([`arg::Arg`]) and positional slots, gathers
//! them in an [`app::App`], and hands the raw token stream to
//! [`app::App::parse_internal`], which returns either a mapping from argument
//! names to resolved string values ([`bindings::Bindings`]) or a structured
//! failure ([`errors::ParseError`]).

pub mod app;
pub mod arg;
pub mod bindings;
pub mod errors;
pub mod laws;
pub mod model;
pub mod text;
