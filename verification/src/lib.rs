//! A cycle-collecting, reference-counted object space.
//!
//! Blocks live in an arena owned by a [`CcObjectSpace`]; a [`Cc`] handle names
//! one block and stands for one unit of its reference count. Values expose
//! their outgoing handles through [`Trace`]. Giving up the last handle to a
//! block drops its value at once; `collect_cycles` reclaims the blocks that
//! only unreachable cycles keep alive, by trial deletion as in CPython's
//! `gcmodule`.
//!
//! The contracts are stated over a model of the space, [`model::SpaceView`]:
//!
//! - [`model`] holds the blocks, their counts and their edges;
//! - [`reach`] says which blocks are reachable and what a collection leaves;
//! - [`release`] says what giving up handles leaves;
//! - [`laws`] states what follows for every space;
//! - [`header`] and [`list`] describe the headers and the list that threads
//!   through them;
//! - [`collect`] holds the space and the collector, [`trace`] the handles.
pub mod collect;
pub mod header;
pub mod laws;
pub mod list;
pub mod model;
pub mod reach;
pub mod release;
pub mod trace;

pub use collect::CcObjectSpace;
pub use collect::ObjectSpace;
pub use header::GcHeader;
pub use trace::Cc;
pub use trace::Trace;
pub use trace::Tracer;
