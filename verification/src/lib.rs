//! Reading, writing and capturing profiler output.
//!
//! Every format is read into one model ([`model::Profile`]) and written from
//! it. [`registry::Registry`] knows the formats and detects them;
//! [`transcode`] is what a front end does with them. [`capture`] and the
//! modules next to it turn samples of a running process into the same model.
//!
//! Each function states what it returns over the mathematical views of its
//! arguments. What relates several functions - that a profile survives being
//! written and read, that every reader yields valid profiles - stands as
//! `law_` functions beside them.

use vstd::prelude::*;

pub mod capi;
pub mod capture;
pub mod chrometrace;
pub mod chrometrace_faults;
pub mod chrometrace_json_laws;
pub mod chrometrace_laws;
pub mod chrometrace_reading_laws;
pub mod command_line;
pub mod command_line_laws;
pub mod conformance;
pub mod error;
pub mod folded;
pub mod folded_form_laws;
pub mod folded_laws;
pub mod format;
pub mod intern;
pub mod json;
pub mod json_format;
pub mod json_format_laws;
pub mod json_laws;
pub mod listing;
pub mod listing_laws;
pub mod message_laws;
pub mod model;
pub mod model_laws;
pub mod number;
pub mod number_laws;
pub mod order;
pub mod path;
pub mod picking;
pub mod pprof;
pub mod pprof_laws;
pub mod pprof_reading_laws;
pub mod proto;
pub mod proto_faults;
pub mod proto_faults_laws;
pub mod proto_laws;
pub mod registry;
pub mod registry_laws;
pub mod ring;
pub mod ring_laws;
pub mod sampling;
pub mod session;
pub mod session_laws;
pub mod sorting;
pub mod speedscope;
pub mod speedscope_laws;
pub mod symbols;
pub mod symbols_laws;
pub mod text;
pub mod text_laws;
pub mod transcode;
pub mod transcode_laws;
pub mod wire;

verus! {

/// The package name of this crate.
pub const NAME: &'static str = "profcast";

/// The package version of this crate.
pub const VERSION: &'static str = "0.1.0";

/// A user-facing profcast version string.
pub const VERSION_STRING: &'static str = "profcast 0.1.0";

} // verus!
