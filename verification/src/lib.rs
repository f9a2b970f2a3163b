//! Block coverage of a program from the note and data files of GCC's coverage
//! instrumentation: decoding the notes into control-flow graphs, folding data files into
//! them, finding the counters of all edges and blocks, and merging and summing up the
//! coverage of functions and files; with what the preload library and the driver around
//! them decide.

pub mod balance;
pub mod builder;
pub mod capture;
pub mod coverage;
pub mod driver;
pub mod error;
pub mod finish;
pub mod flow;
pub mod folding;
pub mod graph;
pub mod growth;
pub mod ipc;
pub mod laws;
pub mod note;
pub mod reader;
pub mod summary;
pub mod tables;
pub mod text;

pub use builder::FileCovBuilder;
pub use capture::Capture;
pub use coverage::{BlockCoverage, FileCoverage, FnCoverage, LineCoverage, ProgCoverage};
pub use driver::{Delivery, Progress, Sessions, SnapshotError, StreamEnd};
pub use error::Error;
pub use graph::{Gcno, GcnoBlock, GcnoEdge, GcnoFunction};
pub use ipc::{Frame, Gcda, Sending};
pub use reader::{ByteReader, Magic};
pub use summary::{CoverageFile, CoverageOne};
