//! A verified codec between JSON documents and "gron" lines: flat,
//! line-oriented assignment statements that name a full path into the
//! document and the value found there, so that line-oriented text tools can
//! search and edit JSON structurally.

pub mod escape;
pub mod gron;
pub mod laws;
pub mod num;
pub mod output;
pub mod pretty;
pub mod roundtrip;
pub mod ungron;
pub mod value;

pub use gron::gron;
pub use gron::normalize;
pub use output::Output;
pub use pretty::pretty_print_document;
pub use ungron::add_line_to_json;
pub use ungron::fold_statements;
pub use ungron::merge_json;
pub use ungron::split_statements;
pub use ungron::ungron;
pub use ungron::GronError;
pub use value::JsonSpec;
pub use value::JsonValue;
