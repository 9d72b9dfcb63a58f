//! Mirrors a hierarchical instance tree onto a directory layout and back.
//!
//! The crate is the pure core of the synchroniser. Exporting ([`export`],
//! [`plan`]) turns a tree of instances into the list of directories and
//! files that represent it; importing ([`import`]) turns a directory listing
//! back into instances. Both directions share one untyped document model,
//! [`value::Value`], into which typed property values are encoded ([`data`]).
//! Properties and attributes are held by name, each name once ([`keyed`]).
//! Nothing here touches the file system or renders text: callers carry out
//! the planned writes and hand in what they read.
//!
//! Every function is verified against a contract over mathematical models
//! of the data. What holds across functions is proved beside them: that the
//! order in which properties arrive never shows in what is put on disk
//! ([`data`], [`determinism`]), that a plan builds the layout it stands for
//! ([`layout`]), and that an exported tree is imported again as it was
//! ([`roundtrip`]).
pub mod compatibility;
pub mod config;
pub mod data;
pub mod determinism;
pub mod export;
pub mod import;
pub mod keyed;
pub mod layout;
pub mod plan;
pub mod roundtrip;
pub mod single;
pub mod text;
pub mod value;

